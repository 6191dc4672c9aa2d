use vstd::prelude::*;
use crate::session::{Step, group_view};
use crate::tag_group::TagGroup;

verus! {

/// A running tally of one group at a step: how often it was seen and the
/// running mean of the durations seen with it.
pub struct TagGroupFrequency {
    tag_group: Option<TagGroup>,
    count: u32,
    average_duration_ms: u64,
}

impl TagGroupFrequency {
    /// The group being tallied, viewed.
    pub closed spec fn group_spec(&self) -> Option<(i32, Seq<Seq<char>>)> {
        group_view(self.tag_group)
    }

    /// How many steps were tallied.
    pub closed spec fn count_spec(&self) -> nat {
        self.count as nat
    }

    /// The running mean duration, in milliseconds.
    pub closed spec fn average_spec(&self) -> nat {
        self.average_duration_ms as nat
    }

    /// Starts a tally from one step.
    pub fn new(step: &Step) -> (r: Self)
        ensures
            r.group_spec() == group_view(step.tag_group),
            r.count_spec() == 1,
            r.average_spec() == step.duration_ms,
    {
        let tag_group = match &step.tag_group {
            Some(g) => Some(g.clone()),
            None => None,
        };
        TagGroupFrequency { tag_group, count: 1, average_duration_ms: step.duration_ms }
    }

    /// Adds one step to the tally: the mean becomes
    /// `(mean * count + duration) / (count + 1)`, rounded down.
    pub fn merge(&mut self, step: &Step)
        requires
            old(self).count_spec() < 0xFFFF_FFFF,
        ensures
            final(self).group_spec() == old(self).group_spec(),
            final(self).count_spec() == old(self).count_spec() + 1,
            final(self).average_spec() as int == (old(self).average_spec() * old(self).count_spec()
                + step.duration_ms) as int / (old(self).count_spec() + 1) as int,
    {
        let count = self.count as u128;
        let avg = self.average_duration_ms as u128;
        assert(avg * count <= 0xFFFF_FFFF_FFFF_FFFFu128 * 0xFFFF_FFFFu128) by (nonlinear_arith)
            requires
                avg <= 0xFFFF_FFFF_FFFF_FFFFu128,
                count <= 0xFFFF_FFFFu128,
        ;
        let total = avg * count + step.duration_ms as u128;
        let next = count + 1;
        let mean = total / next;
        assert(mean <= 0xFFFF_FFFF_FFFF_FFFFu128) by (nonlinear_arith)
            requires
                mean == total / next,
                next == count + 1,
                total == avg * count + step.duration_ms as u128,
                avg <= 0xFFFF_FFFF_FFFF_FFFFu128,
                step.duration_ms <= 0xFFFF_FFFF_FFFF_FFFFu64,
                count >= 0,
        ;
        self.average_duration_ms = mean as u64;
        self.count = self.count + 1;
    }

    /// The group being tallied.
    pub fn tag_group(&self) -> (r: &Option<TagGroup>)
        ensures
            group_view(*r) == self.group_spec(),
    {
        &self.tag_group
    }

    /// How many steps were tallied.
    pub fn count(&self) -> (r: u32)
        ensures
            r == self.count_spec(),
    {
        self.count
    }

    /// The running mean duration, in milliseconds.
    pub fn average_duration_ms(&self) -> (r: u64)
        ensures
            r == self.average_spec(),
    {
        self.average_duration_ms
    }
}

} // verus!
