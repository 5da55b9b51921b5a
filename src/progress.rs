//! Star ranks earned per level. A rank is the number of star thresholds
//! that a result missed: 0 is gold, 1 silver, 2 bronze, 3 no star, and
//! `usize::MAX` marks a level never completed.

use vstd::prelude::*;

verus! {

/// The rank of a level never completed.
pub const NOT_COMPLETED: usize = usize::MAX;

/// How many of the `thresholds` lie strictly below `count`.
pub open spec fn count_below(thresholds: Seq<usize>, count: usize) -> nat
    decreases thresholds.len(),
{
    if thresholds.len() == 0 {
        0
    } else {
        count_below(thresholds.drop_last(), count) + if thresholds.last() < count {
            1nat
        } else {
            0nat
        }
    }
}

/// The rank that a finish with `count` colliders earns: the number of star
/// thresholds below it, which for ascending thresholds is where `count`
/// stands among them.
pub fn rank_for(thresholds: &[usize; 3], count: usize) -> (rank: usize)
    ensures
        rank == count_below(thresholds@, count),
{
    let mut rank: usize = 0;
    let mut i: usize = 0;
    while i < 3
        invariant
            i <= 3,
            rank == count_below(thresholds@.subrange(0, i as int), count),
            rank <= i,
        decreases 3 - i,
    {
        proof {
            assert(thresholds@.subrange(0, i + 1).drop_last() =~= thresholds@.subrange(0, i as int));
        }
        if thresholds[i] < count {
            rank = rank + 1;
        }
        i = i + 1;
    }
    assert(thresholds@.subrange(0, 3) =~= thresholds@);
    rank
}

/// The best rank reached on each level.
pub struct Progression {
    pub levels: Vec<usize>,
}

impl Progression {
    /// `n` levels, none completed.
    pub fn new(n: usize) -> (p: Self)
        ensures
            p.levels@ == Seq::new(n as nat, |i: int| NOT_COMPLETED),
    {
        let mut levels: Vec<usize> = Vec::new();
        let mut i: usize = 0;
        while i < n
            invariant
                i <= n,
                levels@ == Seq::new(i as nat, |k: int| NOT_COMPLETED),
            decreases n - i,
        {
            levels.push(NOT_COMPLETED);
            i = i + 1;
            assert(levels@ =~= Seq::new(i as nat, |k: int| NOT_COMPLETED));
        }
        Progression { levels }
    }

    /// Records a finish of `level` with `rank`; a level keeps its best
    /// (lowest) rank.
    pub fn record(&mut self, level: usize, rank: usize)
        requires
            level < old(self).levels.len(),
        ensures
            final(self).levels@ == old(self).levels@.update(
                level as int,
                if rank < old(self).levels@[level as int] {
                    rank
                } else {
                    old(self).levels@[level as int]
                },
            ),
    {
        let best = if rank < self.levels[level] {
            rank
        } else {
            self.levels[level]
        };
        self.levels.set(level, best);
    }

    /// Whether `level` can be played: the first always, any other once the
    /// one before it is completed.
    pub fn unlocked(&self, level: usize) -> (r: bool)
        requires
            level < self.levels.len(),
        ensures
            r == (level == 0 || self.levels@[level - 1] != NOT_COMPLETED),
    {
        level == 0 || self.levels[level - 1] != NOT_COMPLETED
    }
}

} // verus!
