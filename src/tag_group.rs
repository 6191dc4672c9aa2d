use vstd::prelude::*;

verus! {

/// A caller-defined tag group: a report belongs to it when the report's tags
/// share at least one name with `tags_names`.
pub struct TagGroup {
    pub id: i32,
    pub tags_names: Vec<String>,
}

/// The character sequences of a list of tag names.
pub open spec fn names_view(names: Seq<String>) -> Seq<Seq<char>> {
    names.map_values(|s: String| s@)
}

/// Whether two lists of tag names have a name in common.
pub open spec fn shares_tag(a: Seq<Seq<char>>, b: Seq<Seq<char>>) -> bool {
    exists|i: int, j: int| 0 <= i < a.len() && 0 <= j < b.len() && a[i] == b[j]
}

impl TagGroup {
    /// Whether a report carrying `tags` belongs to this group.
    pub open spec fn matches(self, tags: Seq<Seq<char>>) -> bool {
        shares_tag(names_view(self.tags_names@), tags)
    }

    /// Tells whether any of `tags` is one of this group's tag names.
    pub fn contains_any(&self, tags: &[String]) -> (r: bool)
        ensures
            r == self.matches(names_view(tags@)),
    {
        let ghost a = names_view(self.tags_names@);
        let ghost b = names_view(tags@);
        let mut i: usize = 0;
        while i < self.tags_names.len()
            invariant
                0 <= i <= self.tags_names.len(),
                a == names_view(self.tags_names@),
                b == names_view(tags@),
                forall|x: int, y: int| 0 <= x < i && 0 <= y < b.len() ==> a[x] != b[y],
            decreases self.tags_names.len() - i,
        {
            let mut j: usize = 0;
            while j < tags.len()
                invariant
                    0 <= i < self.tags_names.len(),
                    0 <= j <= tags.len(),
                    a == names_view(self.tags_names@),
                    b == names_view(tags@),
                    forall|x: int, y: int| 0 <= x < i && 0 <= y < b.len() ==> a[x] != b[y],
                    forall|y: int| 0 <= y < j ==> a[i as int] != b[y],
                decreases tags.len() - j,
            {
                if self.tags_names[i] == tags[j] {
                    assert(a[i as int] == b[j as int]);
                    return true;
                }
                j = j + 1;
            }
            i = i + 1;
        }
        false
    }
}

impl View for TagGroup {
    /// The id and the character sequences of the tag names.
    type V = (i32, Seq<Seq<char>>);

    open spec fn view(&self) -> (i32, Seq<Seq<char>>) {
        (self.id, names_view(self.tags_names@))
    }
}

impl Clone for TagGroup {
    fn clone(&self) -> (r: Self)
        ensures
            r@ == self@,
            r.tags_names@ == self.tags_names@,
    {
        let tags_names = self.tags_names.clone();
        assert(tags_names@ =~= self.tags_names@);
        TagGroup { id: self.id, tags_names }
    }
}

/// The position of the first group, from `start` on, that `tags` matches.
pub open spec fn first_match_from(groups: Seq<TagGroup>, tags: Seq<Seq<char>>, start: int) -> Option<int>
    decreases groups.len() - start,
{
    if start < 0 || start >= groups.len() {
        None
    } else if groups[start].matches(tags) {
        Some(start)
    } else {
        first_match_from(groups, tags, start + 1)
    }
}

/// The position of the first group in `groups` that `tags` matches, if any.
pub open spec fn first_match(groups: Seq<TagGroup>, tags: Seq<Seq<char>>) -> Option<int> {
    first_match_from(groups, tags, 0)
}

proof fn lemma_no_match_from_empty(groups: Seq<TagGroup>, start: int)
    ensures
        first_match_from(groups, Seq::<Seq<char>>::empty(), start) is None,
    decreases groups.len() - start,
{
    if 0 <= start < groups.len() {
        lemma_no_match_from_empty(groups, start + 1);
    }
}

proof fn lemma_match_from_at_most(groups: Seq<TagGroup>, tags: Seq<Seq<char>>, start: int, i: int)
    requires
        0 <= start <= i < groups.len(),
        groups[i].matches(tags),
    ensures
        first_match_from(groups, tags, start) matches Some(k) && start <= k <= i
            && groups[k].matches(tags),
    decreases i - start,
{
    if !groups[start].matches(tags) {
        lemma_match_from_at_most(groups, tags, start + 1, i);
    }
}

/// A report without tags belongs to no group, whatever the groups are.
pub proof fn lemma_untagged_report_matches_nothing(groups: Seq<TagGroup>)
    ensures
        first_match(groups, Seq::<Seq<char>>::empty()) is None,
{
    lemma_no_match_from_empty(groups, 0);
}

/// When two groups both match a report, the one listed earlier wins: the
/// match is a group at or before the earlier one, never the later one.
pub proof fn lemma_earlier_group_wins(groups: Seq<TagGroup>, tags: Seq<Seq<char>>, i: int, j: int)
    requires
        0 <= i < j < groups.len(),
        groups[i].matches(tags),
        groups[j].matches(tags),
    ensures
        first_match(groups, tags) matches Some(k) && k <= i && groups[k].matches(tags),
        first_match(groups, tags) != Some(j),
{
    lemma_match_from_at_most(groups, tags, 0, i);
}

/// Finds the first of `tag_groups` that a report carrying `tags` belongs to,
/// and returns its position in the list.
pub fn match_tag_group(tags: &[String], tag_groups: &[TagGroup]) -> (r: Option<usize>)
    ensures
        r matches Some(i) ==> first_match(tag_groups@, names_view(tags@)) == Some(i as int)
            && i < tag_groups@.len(),
        r is None ==> first_match(tag_groups@, names_view(tags@)) is None,
{
    let ghost t = names_view(tags@);
    let mut i: usize = 0;
    while i < tag_groups.len()
        invariant
            0 <= i <= tag_groups.len(),
            t == names_view(tags@),
            first_match(tag_groups@, t) == first_match_from(tag_groups@, t, i as int),
        decreases tag_groups.len() - i,
    {
        if tag_groups[i].contains_any(tags) {
            return Some(i);
        }
        i = i + 1;
    }
    None
}

} // verus!
