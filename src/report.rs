use vstd::prelude::*;
use crate::tag_group::names_view;

verus! {

#[verifier::external_type_specification]
#[verifier::external_body]
pub struct ExUuid(uuid::Uuid);

/// Relies on uuid::Uuid::nil: a placeholder identifier, the all-zero UUID.
pub assume_specification[ uuid::Uuid::nil ]() -> uuid::Uuid;

/// A report as stored: one event of a session at a point in time.
pub struct Report {
    pub report_id: i32,
    pub session_id: uuid::Uuid,
    pub project_id: i32,
    pub timestamp: i64,
}

/// A report as the analytics see it: its session, its time in milliseconds
/// and its tag names (a set; order and repeats carry no meaning).
pub struct ReportInfo {
    pub access_key: uuid::Uuid,
    pub session_id: uuid::Uuid,
    pub time_ms: i64,
    pub tags: Vec<String>,
}

/// A stored tag.
pub struct Tag {
    pub tag_id: i32,
    pub name: String,
}

/// The names of a list of stored tags.
pub open spec fn tag_names(tags: Seq<Tag>) -> Seq<Seq<char>> {
    tags.map_values(|t: Tag| t.name@)
}

impl ReportInfo {
    /// The report's tag names as character sequences.
    pub open spec fn tag_set(self) -> Seq<Seq<char>> {
        names_view(self.tags@)
    }
}

impl Report {
    /// Combines a stored report with the tags attached to it.
    pub fn into_report_info(self, tags: Vec<Tag>) -> (r: ReportInfo)
        ensures
            r.session_id == self.session_id,
            r.time_ms == self.timestamp,
            r.tag_set() == tag_names(tags@),
    {
        let mut names: Vec<String> = Vec::new();
        let rest = tags;
        let ghost all = rest@;
        let mut i: usize = 0;
        while i < rest.len()
            invariant
                rest@ == all,
                0 <= i <= rest.len(),
                names@.len() == i,
                forall|k: int| 0 <= k < i ==> #[trigger] names@[k]@ == all[k].name@,
            decreases rest.len() - i,
        {
            let name = rest[i].name.clone();
            names.push(name);
            i = i + 1;
        }
        assert(names_view(names@) =~= tag_names(all));
        ReportInfo {
            access_key: uuid::Uuid::nil(),
            session_id: self.session_id,
            time_ms: self.timestamp,
            tags: names,
        }
    }
}

} // verus!
