use vstd::prelude::*;
use crate::session::{GroupedSession, Step, group_view};
use crate::tag_group::TagGroup;

verus! {

/// What the sessions did at one step: the mean time the step took, and the
/// groups seen there, least frequent first.
pub struct StepAnalysis {
    pub step_number: usize,
    pub average_duration_ms: u64,
    pub tag_groups_sorted: Vec<TagGroup>,
}

/// The `k`-th steps of the sessions that have one, in session order.
pub open spec fn steps_at(sessions: Seq<GroupedSession>, k: int) -> Seq<Step>
    decreases sessions.len(),
{
    if sessions.len() == 0 {
        Seq::empty()
    } else if 0 <= k < sessions.last().steps@.len() {
        steps_at(sessions.drop_last(), k).push(sessions.last().steps@[k])
    } else {
        steps_at(sessions.drop_last(), k)
    }
}

/// The sum of the durations of `steps`.
pub open spec fn total_step_duration(steps: Seq<Step>) -> int
    decreases steps.len(),
{
    if steps.len() == 0 {
        0
    } else {
        total_step_duration(steps.drop_last()) + steps.last().duration_ms
    }
}

/// The mean duration of `steps`, rounded down; 0 when there are none.
pub open spec fn mean_step_duration(steps: Seq<Step>) -> int {
    if steps.len() == 0 {
        0
    } else {
        total_step_duration(steps) / (steps.len() as int)
    }
}

/// Whether `step` matched the group with the given id.
pub open spec fn is_of_group(step: Step, id: i32) -> bool {
    step.tag_group matches Some(g) && g.id == id
}

/// How many of `steps` matched the group with the given id.
pub open spec fn group_count(steps: Seq<Step>, id: i32) -> nat
    decreases steps.len(),
{
    if steps.len() == 0 {
        0
    } else {
        group_count(steps.drop_last(), id) + if is_of_group(steps.last(), id) {
            1nat
        } else {
            0nat
        }
    }
}

/// The first group with the given id that `steps` matched, viewed.
pub open spec fn first_of_group(steps: Seq<Step>, id: i32) -> Option<(i32, Seq<Seq<char>>)>
    decreases steps.len(),
{
    if steps.len() == 0 {
        None
    } else {
        match first_of_group(steps.drop_last(), id) {
            Some(v) => Some(v),
            None => if is_of_group(steps.last(), id) {
                group_view(steps.last().tag_group)
            } else {
                None
            },
        }
    }
}

/// Whether `a` ranks before `b` among `steps`: it was seen fewer times, or
/// as often and it has the smaller id.
pub open spec fn ranks_before(steps: Seq<Step>, a: TagGroup, b: TagGroup) -> bool {
    group_count(steps, a.id) < group_count(steps, b.id) || (group_count(steps, a.id)
        == group_count(steps, b.id) && a.id < b.id)
}

/// `ranked` lists each group that `steps` matched once (by id, as first
/// seen), least frequent first, ties by ascending id.
pub open spec fn is_ranking_of(ranked: Seq<TagGroup>, steps: Seq<Step>) -> bool {
    &&& forall|i: int, j: int|
        0 <= i < j < ranked.len() ==> ranks_before(steps, #[trigger] ranked[i], #[trigger] ranked[j])
    &&& forall|i: int|
        0 <= i < ranked.len() ==> group_count(steps, (#[trigger] ranked[i]).id) > 0 && first_of_group(
            steps,
            ranked[i].id,
        ) == Some(ranked[i]@)
    &&& forall|id: i32|
        #[trigger] group_count(steps, id) > 0 ==> exists|i: int| 0 <= i < ranked.len() && (#[trigger] ranked[i]).id == id
}

/// The largest number of steps that any of the sessions has.
pub open spec fn max_steps(sessions: Seq<GroupedSession>) -> nat
    decreases sessions.len(),
{
    if sessions.len() == 0 {
        0
    } else {
        let rest = max_steps(sessions.drop_last());
        let n = sessions.last().steps@.len();
        if n > rest {
            n
        } else {
            rest
        }
    }
}

/// `a` is the analysis of step `k` over `sessions`.
pub open spec fn is_analysis_of(a: StepAnalysis, sessions: Seq<GroupedSession>, k: int) -> bool {
    &&& a.step_number == k
    &&& a.average_duration_ms == mean_step_duration(steps_at(sessions, k))
    &&& is_ranking_of(a.tag_groups_sorted@, steps_at(sessions, k))
}

/// `groups` holds each group that `steps` matched once (by id, as first
/// seen), and `counts` how often each was seen.
spec fn is_tally_of(groups: Seq<TagGroup>, counts: Seq<u64>, steps: Seq<Step>) -> bool {
    &&& groups.len() == counts.len()
    &&& forall|j: int| 0 <= j < groups.len() ==> #[trigger] counts[j] == group_count(steps, groups[j].id)
    &&& forall|j: int|
        0 <= j < groups.len() ==> group_count(steps, (#[trigger] groups[j]).id) > 0 && first_of_group(
            steps,
            groups[j].id,
        ) == Some(groups[j]@)
    &&& forall|a: int, b: int|
        0 <= a < groups.len() && 0 <= b < groups.len() && a != b ==> (#[trigger] groups[a]).id != (#[trigger] groups[b]).id
    &&& forall|id: i32|
        #[trigger] group_count(steps, id) > 0 ==> exists|j: int| 0 <= j < groups.len() && (#[trigger] groups[j]).id == id
}

proof fn lemma_unseen_group_has_no_first(steps: Seq<Step>, id: i32)
    requires
        group_count(steps, id) == 0,
    ensures
        first_of_group(steps, id) is None,
    decreases steps.len(),
{
    if steps.len() > 0 {
        lemma_unseen_group_has_no_first(steps.drop_last(), id);
    }
}

proof fn lemma_push_step(before: Seq<Step>, step: Step, id: i32)
    ensures
        group_count(before.push(step), id) == group_count(before, id) + if is_of_group(step, id) {
            1nat
        } else {
            0nat
        },
        first_of_group(before.push(step), id) == match first_of_group(before, id) {
            Some(v) => Some(v),
            None => if is_of_group(step, id) {
                group_view(step.tag_group)
            } else {
                None
            },
        },
{
    assert(before.push(step).drop_last() =~= before);
}

proof fn lemma_steps_at_extend(sessions: Seq<GroupedSession>, i: int, k: int)
    requires
        0 <= i < sessions.len(),
        0 <= k,
    ensures
        steps_at(sessions.subrange(0, i + 1), k) == if k < sessions[i].steps@.len() {
            steps_at(sessions.subrange(0, i), k).push(sessions[i].steps@[k])
        } else {
            steps_at(sessions.subrange(0, i), k)
        },
{
    assert(sessions.subrange(0, i + 1).drop_last() =~= sessions.subrange(0, i));
}

/// Gathers the `k`-th steps of the sessions: the groups seen, with counts,
/// the sum of the durations and the number of steps.
fn tally_step(sessions: &[GroupedSession], k: usize) -> (r: (Vec<TagGroup>, Vec<u64>, u128, u64))
    ensures
        is_tally_of(r.0@, r.1@, steps_at(sessions@, k as int)),
        r.2 == total_step_duration(steps_at(sessions@, k as int)),
        r.3 == steps_at(sessions@, k as int).len(),
        r.2 <= r.3 * 0xFFFF_FFFF_FFFF_FFFFu128,
{
    let mut groups: Vec<TagGroup> = Vec::new();
    let mut counts: Vec<u64> = Vec::new();
    let mut sum: u128 = 0;
    let mut taken: u64 = 0;
    let mut i: usize = 0;
    while i < sessions.len()
        invariant
            0 <= i <= sessions.len(),
            is_tally_of(groups@, counts@, steps_at(sessions@.subrange(0, i as int), k as int)),
            forall|j: int| 0 <= j < counts@.len() ==> #[trigger] counts@[j] <= i,
            sum == total_step_duration(steps_at(sessions@.subrange(0, i as int), k as int)),
            taken == steps_at(sessions@.subrange(0, i as int), k as int).len(),
            taken <= i,
            sum <= taken * 0xFFFF_FFFF_FFFF_FFFFu128,
        decreases sessions.len() - i,
    {
        let ghost before = steps_at(sessions@.subrange(0, i as int), k as int);
        proof {
            lemma_steps_at_extend(sessions@, i as int, k as int);
        }
        if k < sessions[i].steps.len() {
            let step = &sessions[i].steps[k];
            let ghost after = before.push(*step);
            proof {
                assert forall|id: i32| #[trigger] group_count(after, id) == group_count(before, id) + if is_of_group(*step, id) {
                    1nat
                } else {
                    0nat
                } && first_of_group(after, id) == match first_of_group(before, id) {
                    Some(v) => Some(v),
                    None => if is_of_group(*step, id) {
                        group_view(step.tag_group)
                    } else {
                        None
                    },
                } by {
                    lemma_push_step(before, *step, id);
                }
            }
            assert(sum + step.duration_ms <= (taken + 1) * 0xFFFF_FFFF_FFFF_FFFFu128) by (nonlinear_arith)
                requires
                    sum <= taken * 0xFFFF_FFFF_FFFF_FFFFu128,
                    step.duration_ms <= 0xFFFF_FFFF_FFFF_FFFFu64,
            ;
            sum = sum + step.duration_ms as u128;
            taken = taken + 1;
            assert(total_step_duration(after) == total_step_duration(before) + step.duration_ms) by {
                assert(after.drop_last() =~= before);
            }
            match &step.tag_group {
                Some(g) => {
                    let ghost old_groups = groups@;
                    let ghost old_counts = counts@;
                    let mut j: usize = 0;
                    while j < groups.len() && groups[j].id != g.id
                        invariant
                            0 <= j <= groups@.len(),
                            forall|m: int| 0 <= m < j ==> (#[trigger] groups@[m]).id != g.id,
                        decreases groups@.len() - j,
                    {
                        j = j + 1;
                    }
                    if j < groups.len() {
                        counts[j] = counts[j] + 1;
                        assert forall|m: int| 0 <= m < groups@.len() && m != j implies (#[trigger] groups@[m]).id != g.id by {
                            assert(old_groups[m].id != old_groups[j as int].id);
                        }
                        assert forall|id: i32| #[trigger] group_count(after, id) > 0 implies exists|q: int| 0 <= q < groups@.len() && (#[trigger] groups@[q]).id == id by {
                            if id != g.id {
                                assert(group_count(before, id) > 0);
                            } else {
                                assert(groups@[j as int].id == id);
                            }
                        }
                        assert(is_tally_of(groups@, counts@, after));
                    } else {
                        proof {
                            if group_count(before, g.id) > 0 {
                                let q = choose|q: int| 0 <= q < groups@.len() && (#[trigger] groups@[q]).id == g.id;
                                assert(groups@[q].id == g.id);
                            }
                            lemma_unseen_group_has_no_first(before, g.id);
                        }
                        let copy = g.clone();
                        groups.push(copy);
                        counts.push(1);
                        assert forall|id: i32| #[trigger] group_count(after, id) > 0 implies exists|q: int| 0 <= q < groups@.len() && (#[trigger] groups@[q]).id == id by {
                            if id != g.id {
                                assert(group_count(before, id) > 0);
                                let q = choose|q: int| 0 <= q < old_groups.len() && (#[trigger] old_groups[q]).id == id;
                                assert(groups@[q].id == id);
                            } else {
                                assert(groups@[old_groups.len() as int].id == id);
                            }
                        }
                        assert(is_tally_of(groups@, counts@, after));
                    }
                },
                None => {
                    assert(is_tally_of(groups@, counts@, after));
                },
            }
        }
        i = i + 1;
    }
    assert(sessions@.subrange(0, i as int) =~= sessions@);
    (groups, counts, sum, taken)
}

/// `ranked` is in ranking order among `steps`, and `counts` holds how often
/// each of its groups was seen.
spec fn is_sorted_ranking(ranked: Seq<TagGroup>, counts: Seq<u64>, steps: Seq<Step>) -> bool {
    &&& ranked.len() == counts.len()
    &&& forall|m: int| 0 <= m < ranked.len() ==> #[trigger] counts[m] == group_count(steps, ranked[m].id)
    &&& forall|a: int, b: int|
        0 <= a < b < ranked.len() ==> ranks_before(steps, #[trigger] ranked[a], #[trigger] ranked[b])
}

/// Puts `g`, seen `c` times, in its place in a sorted ranking.
fn insert_ranked(ranked: &mut Vec<TagGroup>, counts: &mut Vec<u64>, g: TagGroup, c: u64, Ghost(steps): Ghost<Seq<Step>>)
    requires
        is_sorted_ranking(old(ranked)@, old(counts)@, steps),
        c == group_count(steps, g.id),
        forall|m: int| 0 <= m < old(ranked)@.len() ==> (#[trigger] old(ranked)@[m]).id != g.id,
    ensures
        is_sorted_ranking(final(ranked)@, final(counts)@, steps),
        exists|p: int| 0 <= p <= old(ranked)@.len() && final(ranked)@ == old(ranked)@.insert(p, g),
{
    let mut p: usize = 0;
    while p < ranked.len() && (counts[p] < c || (counts[p] == c && ranked[p].id < g.id))
        invariant
            0 <= p <= ranked@.len(),
            is_sorted_ranking(ranked@, counts@, steps),
            c == group_count(steps, g.id),
            forall|m: int| 0 <= m < p ==> ranks_before(steps, #[trigger] ranked@[m], g),
        decreases ranked@.len() - p,
    {
        p = p + 1;
    }
    let ghost old_ranked = ranked@;
    proof {
        assert forall|m: int| p <= m < old_ranked.len() implies ranks_before(steps, g, #[trigger] old_ranked[m]) by {
            assert(old_ranked[p as int].id != g.id);
            assert(ranks_before(steps, g, old_ranked[p as int]));
            if m > p {
                assert(ranks_before(steps, old_ranked[p as int], old_ranked[m]));
            }
        }
    }
    let ghost gg = g;
    ranked.insert(p, g);
    counts.insert(p, c);
    proof {
        let nr = ranked@;
        assert(nr[p as int] == gg);
        assert forall|a: int, b: int| 0 <= a < b < nr.len() implies ranks_before(steps, #[trigger] nr[a], #[trigger] nr[b]) by {
            if b < p {
                assert(nr[a] == old_ranked[a] && nr[b] == old_ranked[b]);
            } else if b == p {
                assert(nr[a] == old_ranked[a]);
            } else if a == p {
                assert(nr[b] == old_ranked[b - 1]);
            } else if a < p {
                assert(nr[a] == old_ranked[a] && nr[b] == old_ranked[b - 1]);
            } else {
                assert(nr[a] == old_ranked[a - 1] && nr[b] == old_ranked[b - 1]);
            }
        }
    }
}

/// Orders a tally of groups least frequent first, ties by ascending id.
fn rank_groups(groups: &Vec<TagGroup>, counts: &Vec<u64>, Ghost(steps): Ghost<Seq<Step>>) -> (r: Vec<TagGroup>)
    requires
        is_tally_of(groups@, counts@, steps),
    ensures
        is_ranking_of(r@, steps),
{
    let mut ranked: Vec<TagGroup> = Vec::new();
    let mut ranked_counts: Vec<u64> = Vec::new();
    let mut jj: usize = 0;
    while jj < groups.len()
        invariant
            0 <= jj <= groups@.len(),
            is_tally_of(groups@, counts@, steps),
            ranked@.len() == jj,
            is_sorted_ranking(ranked@, ranked_counts@, steps),
            forall|m: int| 0 <= m < jj ==> exists|j: int| 0 <= j < jj && (#[trigger] ranked@[m])@ == (#[trigger] groups@[j])@,
            forall|j: int| 0 <= j < jj ==> exists|m: int| 0 <= m < jj && (#[trigger] ranked@[m]).id == (#[trigger] groups@[j]).id,
        decreases groups@.len() - jj,
    {
        let ghost old_ranked = ranked@;
        proof {
            assert forall|m: int| 0 <= m < old_ranked.len() implies (#[trigger] old_ranked[m]).id != groups@[jj as int].id by {
                let j = choose|j: int| 0 <= j < jj && (#[trigger] ranked@[m])@ == (#[trigger] groups@[j])@;
                assert(groups@[j].id != groups@[jj as int].id);
            }
        }
        let copy = groups[jj].clone();
        insert_ranked(&mut ranked, &mut ranked_counts, copy, counts[jj], Ghost(steps));
        proof {
            let nr = ranked@;
            let p = choose|p: int| 0 <= p <= old_ranked.len() && nr == old_ranked.insert(p, copy);
            assert(nr[p]@ == groups@[jj as int]@);
            assert forall|m: int| 0 <= m < nr.len() implies exists|j: int| 0 <= j < jj + 1 && (#[trigger] nr[m])@ == (#[trigger] groups@[j])@ by {
                if m < p {
                    assert(nr[m] == old_ranked[m]);
                    let j = choose|j: int| 0 <= j < jj && (#[trigger] old_ranked[m])@ == (#[trigger] groups@[j])@;
                    assert(nr[m]@ == groups@[j]@);
                } else if m == p {
                    assert(nr[m]@ == groups@[jj as int]@);
                } else {
                    assert(nr[m] == old_ranked[m - 1]);
                    let j = choose|j: int| 0 <= j < jj && (#[trigger] old_ranked[m - 1])@ == (#[trigger] groups@[j])@;
                    assert(nr[m]@ == groups@[j]@);
                }
            }
            assert forall|j: int| 0 <= j < jj + 1 implies exists|m: int| 0 <= m < jj + 1 && (#[trigger] nr[m]).id == (#[trigger] groups@[j]).id by {
                if j == jj {
                    assert(nr[p].id == groups@[j].id);
                } else {
                    let m = choose|m: int| 0 <= m < jj && (#[trigger] old_ranked[m]).id == (#[trigger] groups@[j]).id;
                    if m < p {
                        assert(nr[m] == old_ranked[m]);
                    } else {
                        assert(nr[m + 1] == old_ranked[m]);
                    }
                }
            }
        }
        jj = jj + 1;
    }
    proof {
        assert forall|i: int| 0 <= i < ranked@.len() implies group_count(steps, (#[trigger] ranked@[i]).id) > 0
            && first_of_group(steps, ranked@[i].id) == Some(ranked@[i]@) by {
            let j = choose|j: int| 0 <= j < jj && (#[trigger] ranked@[i])@ == (#[trigger] groups@[j])@;
            assert(ranked@[i].id == groups@[j].id);
        }
        assert forall|id: i32| #[trigger] group_count(steps, id) > 0 implies exists|i: int| 0 <= i < ranked@.len() && (#[trigger] ranked@[i]).id == id by {
            let j = choose|j: int| 0 <= j < groups@.len() && (#[trigger] groups@[j]).id == id;
            let m = choose|m: int| 0 <= m < jj && (#[trigger] ranked@[m]).id == (#[trigger] groups@[j]).id;
        }
    }
    ranked
}

/// Analyses step `step_number` over the sessions that reached it: the mean
/// of its durations and the groups seen there, least frequent first.
pub fn get_step_analysis(grouped_sessions: &[GroupedSession], step_number: usize) -> (r: StepAnalysis)
    ensures
        is_analysis_of(r, grouped_sessions@, step_number as int),
{
    let (groups, counts, sum, taken) = tally_step(grouped_sessions, step_number);
    let ghost steps = steps_at(grouped_sessions@, step_number as int);
    let tag_groups_sorted = rank_groups(&groups, &counts, Ghost(steps));
    let average_duration_ms: u64 = if taken == 0 {
        0
    } else {
        let mean = sum / (taken as u128);
        assert(mean <= 0xFFFF_FFFF_FFFF_FFFFu128) by (nonlinear_arith)
            requires
                mean == sum / (taken as u128),
                sum <= taken * 0xFFFF_FFFF_FFFF_FFFFu128,
                taken > 0,
        ;
        mean as u64
    };
    StepAnalysis { step_number, average_duration_ms, tag_groups_sorted }
}

/// Analyses every step that some session reached, from step 0 up to the
/// largest number of steps among the sessions.
pub fn grouped_sessions_to_session_analysis(grouped_sessions: &[GroupedSession]) -> (r: Vec<StepAnalysis>)
    ensures
        r@.len() == max_steps(grouped_sessions@),
        forall|k: int| 0 <= k < r@.len() ==> is_analysis_of(#[trigger] r@[k], grouped_sessions@, k),
{
    let mut most: usize = 0;
    let mut i: usize = 0;
    while i < grouped_sessions.len()
        invariant
            0 <= i <= grouped_sessions.len(),
            most == max_steps(grouped_sessions@.subrange(0, i as int)),
        decreases grouped_sessions.len() - i,
    {
        assert(grouped_sessions@.subrange(0, i + 1).drop_last() =~= grouped_sessions@.subrange(0, i as int));
        if grouped_sessions[i].steps.len() > most {
            most = grouped_sessions[i].steps.len();
        }
        i = i + 1;
    }
    assert(grouped_sessions@.subrange(0, i as int) =~= grouped_sessions@);
    let mut analyses: Vec<StepAnalysis> = Vec::new();
    let mut k: usize = 0;
    while k < most
        invariant
            0 <= k <= most,
            analyses@.len() == k,
            forall|m: int| 0 <= m < k ==> is_analysis_of(#[trigger] analyses@[m], grouped_sessions@, m),
        decreases most - k,
    {
        analyses.push(get_step_analysis(grouped_sessions, k));
        k = k + 1;
    }
    analyses
}

} // verus!
