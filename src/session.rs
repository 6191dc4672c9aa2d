use vstd::prelude::*;
use crate::error::DataError;
use crate::percentage::Percentage;
use crate::report::ReportInfo;
use crate::tag_group::{TagGroup, first_match, match_tag_group};

verus! {

/// One visit: an identifier and its reports, ordered by time.
pub struct Session {
    pub session_id: uuid::Uuid,
    pub reports: Vec<ReportInfo>,
}

/// One funnel step of a session: the group its run of reports matched (none
/// for a run that matched no group) and the time since the previous run ended.
pub struct Step {
    pub step_number: usize,
    pub tag_group: Option<TagGroup>,
    pub duration_ms: u64,
}

/// The funnel steps of one session.
pub struct GroupedSession {
    pub steps: Vec<Step>,
}

/// The distance between two instants, in milliseconds.
pub open spec fn abs_diff(a: int, b: int) -> int {
    if a >= b {
        a - b
    } else {
        b - a
    }
}

/// The position of the group that each report matches, report by report.
pub open spec fn run_keys(reports: Seq<ReportInfo>, groups: Seq<TagGroup>) -> Seq<Option<int>> {
    reports.map_values(|r: ReportInfo| first_match(groups, r.tag_set()))
}

/// Whether report `i` is the last of its run: the next report, if any,
/// matched something else.
pub open spec fn is_run_end(keys: Seq<Option<int>>, i: int) -> bool {
    i == keys.len() - 1 || keys[i] != keys[i + 1]
}

/// The positions, below `n`, of the reports that end a run.
pub open spec fn run_ends_upto(keys: Seq<Option<int>>, n: int) -> Seq<int>
    decreases n,
{
    if n <= 0 {
        Seq::empty()
    } else if is_run_end(keys, n - 1) {
        run_ends_upto(keys, n - 1).push(n - 1)
    } else {
        run_ends_upto(keys, n - 1)
    }
}

/// The positions of the last reports of the maximal runs of equal keys.
pub open spec fn run_ends(keys: Seq<Option<int>>) -> Seq<int> {
    run_ends_upto(keys, keys.len() as int)
}

/// The number of steps of a session with the given run ends: every run but
/// the first.
pub open spec fn step_count(ends: Seq<int>) -> int {
    if ends.len() == 0 {
        0
    } else {
        ends.len() - 1
    }
}

/// The group at a position of the list, viewed.
pub open spec fn group_at(groups: Seq<TagGroup>, key: Option<int>) -> Option<(i32, Seq<Seq<char>>)> {
    match key {
        Some(i) => Some(groups[i]@),
        None => None,
    }
}

/// An optional group, viewed.
pub open spec fn group_view(g: Option<TagGroup>) -> Option<(i32, Seq<Seq<char>>)> {
    match g {
        Some(t) => Some(t@),
        None => None,
    }
}

/// `steps` are the funnel steps of `reports` under `groups`: one step for
/// each run after the first, numbered from 0, carrying the run's group and
/// the distance between the run's last timestamp and the previous run's.
pub open spec fn is_grouping_of(steps: Seq<Step>, reports: Seq<ReportInfo>, groups: Seq<TagGroup>) -> bool {
    let keys = run_keys(reports, groups);
    let ends = run_ends(keys);
    &&& steps.len() == step_count(ends)
    &&& forall|k: int|
        0 <= k < steps.len() ==> {
            &&& (#[trigger] steps[k]).step_number == k
            &&& group_view(steps[k].tag_group) == group_at(groups, keys[ends[k + 1]])
            &&& steps[k].duration_ms == abs_diff(
                reports[ends[k + 1]].time_ms as int,
                reports[ends[k]].time_ms as int,
            )
        }
}

/// A key as the specification sees it.
pub open spec fn key_of(k: Option<usize>) -> Option<int> {
    match k {
        Some(i) => Some(i as int),
        None => None,
    }
}

proof fn lemma_no_run_end_before_last(keys: Seq<Option<int>>, n: int)
    requires
        0 <= n < keys.len(),
        forall|i: int, j: int| 0 <= i < keys.len() && 0 <= j < keys.len() ==> keys[i] == keys[j],
    ensures
        run_ends_upto(keys, n).len() == 0,
    decreases n,
{
    if n > 0 {
        lemma_no_run_end_before_last(keys, n - 1);
        assert(keys[n - 1] == keys[n]);
    }
}

/// A session whose reports all form one run (they all match the same group,
/// or all match none), or that has no reports, has no steps.
pub proof fn lemma_single_run_has_no_steps(steps: Seq<Step>, reports: Seq<ReportInfo>, groups: Seq<TagGroup>)
    requires
        is_grouping_of(steps, reports, groups),
        forall|i: int, j: int|
            0 <= i < reports.len() && 0 <= j < reports.len() ==> run_keys(reports, groups)[i]
                == run_keys(reports, groups)[j],
    ensures
        steps.len() == 0,
{
    let keys = run_keys(reports, groups);
    if keys.len() > 0 {
        lemma_no_run_end_before_last(keys, keys.len() - 1);
    }
}

/// The keys as the specification sees them.
pub open spec fn keys_view(keys: Seq<Option<usize>>) -> Seq<Option<int>> {
    keys.map_values(|k: Option<usize>| key_of(k))
}

fn same_key(a: Option<usize>, b: Option<usize>) -> (r: bool)
    ensures
        r == (a == b),
{
    match (a, b) {
        (Some(x), Some(y)) => x == y,
        (None, None) => true,
        _ => false,
    }
}

/// The last position of each maximal run of equal keys, in order.
fn run_end_positions(keys: &Vec<Option<usize>>) -> (r: Vec<usize>)
    ensures
        r@.map_values(|e: usize| e as int) == run_ends(keys_view(keys@)),
        forall|m: int| 0 <= m < r@.len() ==> r@[m] < keys@.len(),
{
    let ghost kv = keys_view(keys@);
    let mut ends: Vec<usize> = Vec::new();
    let mut i: usize = 0;
    while i < keys.len()
        invariant
            0 <= i <= keys.len(),
            kv == keys_view(keys@),
            ends@.map_values(|e: usize| e as int) == run_ends_upto(kv, i as int),
            forall|m: int| 0 <= m < ends@.len() ==> ends@[m] < i,
        decreases keys.len() - i,
    {
        let last = i + 1 == keys.len();
        if last || !same_key(keys[i], keys[i + 1]) {
            assert(is_run_end(kv, i as int));
            ends.push(i);
            assert(ends@.map_values(|e: usize| e as int) =~= run_ends_upto(kv, i as int).push(i as int));
        } else {
            assert(kv[i as int] == kv[i + 1]);
        }
        i = i + 1;
    }
    ends
}

fn gap_ms(later: i64, earlier: i64) -> (r: u64)
    ensures
        r == abs_diff(later as int, earlier as int),
{
    if later >= earlier {
        (later as i128 - earlier as i128) as u64
    } else {
        (earlier as i128 - later as i128) as u64
    }
}

impl Session {
    /// For each report, the position of the first group it matches.
    fn group_ids(&self, tag_groups: &[TagGroup]) -> (r: Vec<Option<usize>>)
        ensures
            keys_view(r@) == run_keys(self.reports@, tag_groups@),
            forall|m: int| 0 <= m < r@.len() ==> (#[trigger] r@[m] matches Some(g) ==> g < tag_groups@.len()),
    {
        let mut ids: Vec<Option<usize>> = Vec::new();
        let mut i: usize = 0;
        while i < self.reports.len()
            invariant
                0 <= i <= self.reports.len(),
                ids@.len() == i,
                forall|m: int| 0 <= m < i ==> key_of(#[trigger] ids@[m]) == first_match(tag_groups@, self.reports@[m].tag_set()),
                forall|m: int| 0 <= m < ids@.len() ==> (#[trigger] ids@[m] matches Some(g) ==> g < tag_groups@.len()),
            decreases self.reports.len() - i,
        {
            let id = match_tag_group(self.reports[i].tags.as_slice(), tag_groups);
            ids.push(id);
            i = i + 1;
        }
        assert(keys_view(ids@) =~= run_keys(self.reports@, tag_groups@));
        ids
    }

    /// Collapses the session into funnel steps under `tag_groups`.
    pub fn into_grouped_session(self, tag_groups: &[TagGroup]) -> (r: GroupedSession)
        ensures
            is_grouping_of(r.steps@, self.reports@, tag_groups@),
    {
        let keys = self.group_ids(tag_groups);
        let ends = run_end_positions(&keys);
        let ghost kv = keys_view(keys@);
        let ghost ev = ends@.map_values(|e: usize| e as int);
        let mut steps: Vec<Step> = Vec::new();
        if ends.len() == 0 {
            return GroupedSession { steps };
        }
        let mut k: usize = 1;
        while k < ends.len()
            invariant
                1 <= k <= ends.len(),
                kv == keys_view(keys@),
                kv == run_keys(self.reports@, tag_groups@),
                ev == ends@.map_values(|e: usize| e as int),
                ev == run_ends(kv),
                keys@.len() == self.reports@.len(),
                forall|m: int| 0 <= m < ends@.len() ==> ends@[m] < keys@.len(),
                forall|m: int| 0 <= m < keys@.len() ==> (#[trigger] keys@[m] matches Some(g) ==> g < tag_groups@.len()),
                steps@.len() == k - 1,
                forall|j: int|
                    0 <= j < steps@.len() ==> {
                        &&& (#[trigger] steps@[j]).step_number == j
                        &&& group_view(steps@[j].tag_group) == group_at(tag_groups@, kv[ev[j + 1]])
                        &&& steps@[j].duration_ms == abs_diff(
                            self.reports@[ev[j + 1]].time_ms as int,
                            self.reports@[ev[j]].time_ms as int,
                        )
                    },
            decreases ends.len() - k,
        {
            let end = ends[k];
            let prev = ends[k - 1];
            let tag_group = match keys[end] {
                Some(g) => Some(tag_groups[g].clone()),
                None => None,
            };
            let duration_ms = gap_ms(self.reports[end].time_ms, self.reports[prev].time_ms);
            steps.push(Step { step_number: k - 1, tag_group, duration_ms });
            k = k + 1;
        }
        GroupedSession { steps }
    }
}

impl Session {
    /// Whether some report of the session belongs to `g`.
    pub open spec fn has_group(self, g: TagGroup) -> bool {
        exists|i: int| 0 <= i < self.reports@.len() && g.matches(#[trigger] self.reports@[i].tag_set())
    }

    /// The time between the session's first two reports, or 0 for a session
    /// with fewer than two reports.
    pub open spec fn duration(self) -> int {
        if self.reports@.len() < 2 {
            0
        } else {
            abs_diff(self.reports@[1].time_ms as int, self.reports@[0].time_ms as int)
        }
    }
}

/// How many of `sessions` have a report that belongs to `g`.
pub open spec fn count_with_group(sessions: Seq<Session>, g: TagGroup) -> nat
    decreases sessions.len(),
{
    if sessions.len() == 0 {
        0
    } else {
        count_with_group(sessions.drop_last(), g) + if sessions.last().has_group(g) {
            1nat
        } else {
            0nat
        }
    }
}

/// The count behind a percentage is the number of sessions that
/// `get_sessions_with_tag_group` keeps.
pub proof fn lemma_count_is_kept_sessions(sessions: Seq<Session>, g: TagGroup)
    ensures
        count_with_group(sessions, g) == sessions.filter(|s: Session| s.has_group(g)).len(),
    decreases sessions.len(),
{
    reveal(Seq::filter);
    if sessions.len() > 0 {
        lemma_count_is_kept_sessions(sessions.drop_last(), g);
    }
}

/// The sum of the durations of `sessions`.
pub open spec fn total_duration(sessions: Seq<Session>) -> int
    decreases sessions.len(),
{
    if sessions.len() == 0 {
        0
    } else {
        total_duration(sessions.drop_last()) + sessions.last().duration()
    }
}

/// `100 * part / whole`, rounded to the nearest whole number, halves up.
pub open spec fn rounded_percent(part: int, whole: int) -> int {
    (200 * part + whole) / (2 * whole)
}

proof fn lemma_rounded_percent_at_most_hundred(part: int, whole: int)
    requires
        0 <= part <= whole,
        0 < whole,
    ensures
        0 <= rounded_percent(part, whole) <= 100,
{
    assert(0 <= (200 * part + whole) / (2 * whole) <= 100) by (nonlinear_arith)
        requires
            0 <= part <= whole,
            0 < whole,
    ;
}

impl Session {
    /// Tells whether some report of the session belongs to `tag_group`.
    pub fn contains_tag_group(&self, tag_group: &TagGroup) -> (r: bool)
        ensures
            r == self.has_group(*tag_group),
    {
        let mut i: usize = 0;
        while i < self.reports.len()
            invariant
                0 <= i <= self.reports.len(),
                forall|m: int| 0 <= m < i ==> !tag_group.matches(#[trigger] self.reports@[m].tag_set()),
            decreases self.reports.len() - i,
        {
            if tag_group.contains_any(self.reports[i].tags.as_slice()) {
                assert(tag_group.matches(self.reports@[i as int].tag_set()));
                return true;
            }
            i = i + 1;
        }
        false
    }

    /// Keeps the sessions that have a report belonging to `tag_group`, in
    /// their order.
    pub fn get_sessions_with_tag_group(sessions: Vec<Session>, tag_group: &TagGroup) -> (r: Vec<Session>)
        ensures
            r@ == sessions@.filter(|s: Session| s.has_group(*tag_group)),
    {
        let ghost all = sessions@;
        let mut kept: Vec<Session> = Vec::new();
        for s in it: sessions.into_iter()
            invariant
                it.seq() == all,
                kept@ == all.take(it.index() as int).filter(|x: Session| x.has_group(*tag_group)),
        {
            let ghost i = it.index() as int;
            let keep = s.contains_tag_group(tag_group);
            proof {
                reveal(Seq::filter);
                assert(all.take(i + 1).drop_last() =~= all.take(i));
                assert(s == all[i]);
            }
            if keep {
                kept.push(s);
            }
        }
        assert(all.take(all.len() as int) =~= all);
        kept
    }

    /// Counts the sessions that have a report belonging to `tag_group`.
    pub fn count_sessions_with_tag_group(sessions: &[Session], tag_group: &TagGroup) -> (r: usize)
        ensures
            r == count_with_group(sessions@, *tag_group),
            r <= sessions@.len(),
    {
        let mut count: usize = 0;
        let mut i: usize = 0;
        while i < sessions.len()
            invariant
                0 <= i <= sessions.len(),
                count <= i,
                count == count_with_group(sessions@.subrange(0, i as int), *tag_group),
            decreases sessions.len() - i,
        {
            if sessions[i].contains_tag_group(tag_group) {
                count = count + 1;
            }
            assert(sessions@.subrange(0, i + 1).drop_last() =~= sessions@.subrange(0, i as int));
            i = i + 1;
        }
        assert(sessions@.subrange(0, i as int) =~= sessions@);
        count
    }

    /// For each group, the share of the sessions that have a report belonging
    /// to it, as a rounded percentage; fails when there are no sessions.
    pub fn get_percentages(sessions: &[Session], tag_groups: &[TagGroup]) -> (r: Result<Vec<Percentage>, DataError>)
        ensures
            r is Err <==> sessions@.len() == 0,
            r matches Err(e) ==> e == DataError::NoSessionFound,
            r matches Ok(v) ==> v@.len() == tag_groups@.len() && forall|i: int|
                0 <= i < v@.len() ==> (#[trigger] v@[i])@ == rounded_percent(
                    count_with_group(sessions@, tag_groups@[i]) as int,
                    sessions@.len() as int,
                ),
    {
        let total = sessions.len();
        if total == 0 {
            return Err(DataError::NoSessionFound);
        }
        let mut percentages: Vec<Percentage> = Vec::new();
        let mut i: usize = 0;
        while i < tag_groups.len()
            invariant
                0 <= i <= tag_groups.len(),
                total == sessions@.len(),
                total > 0,
                percentages@.len() == i,
                forall|m: int|
                    0 <= m < i ==> (#[trigger] percentages@[m])@ == rounded_percent(
                        count_with_group(sessions@, tag_groups@[m]) as int,
                        total as int,
                    ),
            decreases tag_groups.len() - i,
        {
            let count = Self::count_sessions_with_tag_group(sessions, &tag_groups[i]);
            proof {
                lemma_rounded_percent_at_most_hundred(count as int, total as int);
            }
            let rounded: u128 = (200 * (count as u128) + total as u128) / (2 * (total as u128));
            percentages.push(Percentage::new(rounded as u32).unwrap());
            i = i + 1;
        }
        Ok(percentages)
    }

    /// The time between the session's first two reports, in milliseconds; 0
    /// when it has fewer than two.
    pub fn get_session_duration(&self) -> (r: u64)
        ensures
            r == self.duration(),
    {
        if self.reports.len() < 2 {
            0
        } else {
            gap_ms(self.reports[1].time_ms, self.reports[0].time_ms)
        }
    }

    /// The mean duration of the sessions, rounded down; 0 when there are none.
    pub fn get_average_session_duration(sessions: &[Session]) -> (r: u64)
        ensures
            sessions@.len() == 0 ==> r == 0,
            sessions@.len() > 0 ==> r == total_duration(sessions@) / (sessions@.len() as int),
    {
        let n = sessions.len();
        if n == 0 {
            return 0;
        }
        let mut sum: u128 = 0;
        let mut i: usize = 0;
        while i < n
            invariant
                0 <= i <= n,
                n == sessions@.len(),
                sum == total_duration(sessions@.subrange(0, i as int)),
                sum <= i * 0xFFFF_FFFF_FFFF_FFFFu128,
            decreases n - i,
        {
            let d = sessions[i].get_session_duration();
            assert(sum + d <= (i + 1) * 0xFFFF_FFFF_FFFF_FFFFu128) by (nonlinear_arith)
                requires
                    sum <= i * 0xFFFF_FFFF_FFFF_FFFFu128,
                    d <= 0xFFFF_FFFF_FFFF_FFFFu64,
            ;
            sum = sum + d as u128;
            assert(sessions@.subrange(0, i + 1).drop_last() =~= sessions@.subrange(0, i as int));
            i = i + 1;
        }
        assert(sessions@.subrange(0, i as int) =~= sessions@);
        let mean = sum / (n as u128);
        assert(mean <= 0xFFFF_FFFF_FFFF_FFFFu128) by (nonlinear_arith)
            requires
                mean == sum / (n as u128),
                sum <= n * 0xFFFF_FFFF_FFFF_FFFFu128,
                n > 0,
        ;
        mean as u64
    }
}

} // verus!
