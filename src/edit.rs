//! The puzzle's editor: which wall tiles the player has turned into
//! colliders, under a per-level cap.

use crate::grid::{pos, GridCoords, OccupancySet};
use rand::seq::IteratorRandom;
use vstd::prelude::*;

verus! {

/// A sound cue for the audio player.
#[derive(Clone, Copy, Debug, PartialEq, Eq, Structural)]
pub enum AudioEvent {
    Click,
    Jump,
    Fall,
    Win,
    Crash,
    AddCollider,
    RemoveCollider,
    FailedCollider,
    Eagle,
}

/// The fixed data of one level: the colliders it starts with, the collider
/// counts that earn each star (best first), and the cap on colliders.
#[derive(Clone, Copy, Debug)]
pub struct LevelInfo {
    pub start_colliders: [GridCoords; 2],
    pub thresholds: [usize; 3],
    pub max_colliders: usize,
}

/// The cells of the walls in `cells`.
pub open spec fn cell_set(cells: Seq<GridCoords>) -> Set<(int, int)> {
    Set::new(|p: (int, int)| exists|i: int| 0 <= i < cells.len() && pos(#[trigger] cells[i]) == p)
}

/// Relies on rand's `IteratorRandom::choose` with the thread-local generator:
/// on an iterator of known length it yields one of the items, and `None`
/// only when there are none.
#[verifier::external_body]
fn choose_one(cands: &Vec<GridCoords>) -> (r: Option<GridCoords>)
    ensures
        r is None <==> cands@.len() == 0,
        r matches Some(c) ==> cands@.contains(c),
{
    cands.iter().copied().choose(&mut rand::thread_rng())
}

/// The wall tiles that are enabled as colliders.
pub struct EnabledColliders {
    pub coords: OccupancySet,
}

impl EnabledColliders {
    /// No tile enabled.
    pub fn new() -> (e: Self)
        ensures
            e.coords.wf(),
            e.coords@ == Set::<(int, int)>::empty(),
            e.coords.count() == 0,
    {
        EnabledColliders { coords: OccupancySet::new() }
    }

    /// The player asks to enable (or disable) the tile at `c`. Enabling is
    /// refused while `max` tiles or more are enabled; the cue to play says
    /// what happened.
    pub fn toggle(&mut self, c: GridCoords, enable: bool, max: usize) -> (cue: AudioEvent)
        requires
            old(self).coords.wf(),
        ensures
            final(self).coords.wf(),
            enable && old(self).coords.count() >= max ==> cue == AudioEvent::FailedCollider
                && final(self).coords@ == old(self).coords@ && final(self).coords.count()
                == old(self).coords.count(),
            enable && old(self).coords.count() < max ==> cue == AudioEvent::AddCollider
                && final(self).coords@ == old(self).coords@.insert(pos(c)),
            !enable ==> cue == AudioEvent::RemoveCollider && final(self).coords@ == old(
                self,
            ).coords@.remove(pos(c)),
    {
        if enable {
            if self.coords.len() >= max {
                AudioEvent::FailedCollider
            } else {
                self.coords.insert(c);
                AudioEvent::AddCollider
            }
        } else {
            self.coords.remove(c);
            AudioEvent::RemoveCollider
        }
    }

    /// Back to exactly the level's starting colliders.
    pub fn reset(&mut self, start: &[GridCoords; 2])
        ensures
            final(self).coords.wf(),
            final(self).coords@ == cell_set(start@),
    {
        self.coords.clear();
        self.coords.insert(start[0]);
        self.coords.insert(start[1]);
        assert(self.coords@ =~= cell_set(start@)) by {
            assert forall|p: (int, int)| #[trigger] cell_set(start@).contains(p) implies p == pos(
                start@[0],
            ) || p == pos(start@[1]) by {
                let i = choose|i: int| 0 <= i < start@.len() && pos(#[trigger] start@[i]) == p;
            }
        }
    }

    /// Back to the level's starting colliders, then enables walls drawn at
    /// random among those not yet enabled, until `max` tiles are enabled or
    /// every wall is.
    pub fn randomize(&mut self, start: &[GridCoords; 2], walls: &Vec<GridCoords>, max: usize)
        ensures
            final(self).coords.wf(),
            cell_set(start@).subset_of(final(self).coords@),
            forall|p: (int, int)| #[trigger]
                final(self).coords@.contains(p) ==> cell_set(start@).contains(p) || cell_set(
                    walls@,
                ).contains(p),
            final(self).coords.count() >= max || cell_set(walls@).subset_of(final(self).coords@),
            final(self).coords.count() <= max || final(self).coords@ == cell_set(start@),
    {
        self.reset(start);
        let ghost base = self.coords@;
        while self.coords.len() < max
            invariant
                self.coords.wf(),
                base == cell_set(start@),
                base.subset_of(self.coords@),
                forall|p: (int, int)| #[trigger]
                    self.coords@.contains(p) ==> base.contains(p) || cell_set(walls@).contains(p),
                self.coords.count() <= max || self.coords@ == base,
            ensures
                self.coords.wf(),
                base.subset_of(self.coords@),
                forall|p: (int, int)| #[trigger]
                    self.coords@.contains(p) ==> base.contains(p) || cell_set(walls@).contains(p),
                self.coords.count() <= max || self.coords@ == base,
                self.coords.count() >= max || cell_set(walls@).subset_of(self.coords@),
            decreases max - self.coords.count(),
        {
            let cands = self.missing(walls);
            match choose_one(&cands) {
                None => {
                    assert(cell_set(walls@).subset_of(self.coords@)) by {
                        assert forall|p: (int, int)| #[trigger] cell_set(walls@).contains(p) implies self.coords@.contains(p) by {
                            let i = choose|i: int| 0 <= i < walls@.len() && pos(#[trigger] walls@[i]) == p;
                            assert(walls@[i] == walls@[i]);
                        }
                    }
                    break;
                },
                Some(c) => {
                    self.coords.insert(c);
                    proof {
                        let i = choose|i: int| 0 <= i < walls@.len() && walls@[i] == c;
                        assert(cell_set(walls@).contains(pos(walls@[i])));
                    }
                },
            }
        }
    }

    /// The walls that are not enabled yet.
    fn missing(&self, walls: &Vec<GridCoords>) -> (r: Vec<GridCoords>)
        ensures
            forall|k: int|
                0 <= k < r@.len() ==> walls@.contains(#[trigger] r@[k]) && !self.coords@.contains(
                    pos(r@[k]),
                ),
            forall|i: int|
                0 <= i < walls@.len() && !self.coords@.contains(pos(#[trigger] walls@[i]))
                    ==> r@.contains(walls@[i]),
    {
        let mut r: Vec<GridCoords> = Vec::new();
        let mut i: usize = 0;
        while i < walls.len()
            invariant
                i <= walls.len(),
                forall|k: int|
                    0 <= k < r@.len() ==> walls@.contains(#[trigger] r@[k]) && !self.coords@.contains(
                        pos(r@[k]),
                    ),
                forall|j: int|
                    0 <= j < i && !self.coords@.contains(pos(#[trigger] walls@[j])) ==> r@.contains(
                        walls@[j],
                    ),
            decreases walls.len() - i,
        {
            let w = walls[i];
            if !self.coords.contains(w) {
                let ghost before = r@;
                r.push(w);
                proof {
                    assert(r@[r@.len() - 1] == w);
                    assert forall|j: int|
                        0 <= j < i && !self.coords@.contains(pos(#[trigger] walls@[j])) implies r@.contains(
                            walls@[j],
                        ) by {
                        let m = choose|m: int| 0 <= m < before.len() && before[m] == walls@[j];
                        assert(r@[m] == before[m]);
                    }
                }
            }
            proof {
                assert(walls@.contains(walls@[i as int]));
            }
            i = i + 1;
        }
        r
    }
}

} // verus!
