//! Overlap sensors: each sensor keeps the set of partner entities it
//! currently overlaps, fed by the start and stop events of the physics
//! engine. A sensor is active while that set is not empty (a ground probe
//! standing on something, a climber next to a ladder).

use std::collections::{HashMap, HashSet};
use vstd::prelude::*;

verus! {

broadcast use vstd::std_specs::hash::group_hash_axioms;

/// Two entities started or stopped overlapping.
#[derive(Clone, Copy, Debug, PartialEq, Eq, Structural)]
pub struct OverlapEvent {
    pub a: u64,
    pub b: u64,
    pub started: bool,
}

/// The sets after sensor `s` hears that it started (or stopped) overlapping
/// `p`: only a sensor with a partner changes.
pub open spec fn touch(
    sets: Map<u64, Set<u64>>,
    partners: Set<u64>,
    s: u64,
    p: u64,
    started: bool,
) -> Map<u64, Set<u64>> {
    if sets.contains_key(s) && partners.contains(p) {
        sets.insert(
            s,
            if started {
                sets[s].insert(p)
            } else {
                sets[s].remove(p)
            },
        )
    } else {
        sets
    }
}

/// The sets after one event, which is heard from both sides.
pub open spec fn apply_event(sets: Map<u64, Set<u64>>, partners: Set<u64>, ev: OverlapEvent) -> Map<
    u64,
    Set<u64>,
> {
    touch(touch(sets, partners, ev.a, ev.b, ev.started), partners, ev.b, ev.a, ev.started)
}

/// The sets after a sequence of events, applied in order.
pub open spec fn apply_events(
    sets: Map<u64, Set<u64>>,
    partners: Set<u64>,
    evs: Seq<OverlapEvent>,
) -> Map<u64, Set<u64>>
    decreases evs.len(),
{
    if evs.len() == 0 {
        sets
    } else {
        apply_event(apply_events(sets, partners, evs.drop_last()), partners, evs.last())
    }
}

/// The overlap sets of all sensors, and which entities count as partners.
pub struct SensorTracker {
    sensors: HashMap<u64, HashSet<u64>>,
    partners: HashSet<u64>,
}

impl SensorTracker {
    /// For each sensor, the partners it overlaps.
    pub closed spec fn sets(&self) -> Map<u64, Set<u64>> {
        self.sensors@.map_values(|s: HashSet<u64>| s@)
    }

    /// The entities whose overlaps the sensors record.
    pub closed spec fn partner_set(&self) -> Set<u64> {
        self.partners@
    }

    /// No sensors and no partners.
    pub fn new() -> (t: Self)
        ensures
            t.sets() == Map::<u64, Set<u64>>::empty(),
            t.partner_set() == Set::<u64>::empty(),
    {
        let t = SensorTracker { sensors: HashMap::new(), partners: HashSet::new() };
        assert(t.sets() =~= Map::<u64, Set<u64>>::empty());
        t
    }

    /// Starts tracking `s` as a sensor that overlaps nothing.
    pub fn add_sensor(&mut self, s: u64)
        ensures
            final(self).sets() == old(self).sets().insert(s, Set::<u64>::empty()),
            final(self).partner_set() == old(self).partner_set(),
    {
        self.sensors.insert(s, HashSet::new());
        assert(self.sets() =~= old(self).sets().insert(s, Set::<u64>::empty()));
    }

    /// Stops tracking the sensor `s`.
    pub fn remove_sensor(&mut self, s: u64)
        ensures
            final(self).sets() == old(self).sets().remove(s),
            final(self).partner_set() == old(self).partner_set(),
    {
        self.sensors.remove(&s);
        assert(self.sets() =~= old(self).sets().remove(s));
    }

    /// Counts `p` as a partner from now on.
    pub fn add_partner(&mut self, p: u64)
        ensures
            final(self).sets() == old(self).sets(),
            final(self).partner_set() == old(self).partner_set().insert(p),
    {
        self.partners.insert(p);
    }

    /// No longer counts `p` as a partner; overlaps already recorded stay.
    pub fn remove_partner(&mut self, p: u64)
        ensures
            final(self).sets() == old(self).sets(),
            final(self).partner_set() == old(self).partner_set().remove(p),
    {
        self.partners.remove(&p);
    }

    fn touch_one(&mut self, s: u64, p: u64, started: bool)
        ensures
            final(self).sets() == touch(old(self).sets(), old(self).partner_set(), s, p, started),
            final(self).partner_set() == old(self).partner_set(),
    {
        if self.partners.contains(&p) {
            match self.sensors.remove(&s) {
                Some(mut set) => {
                    if started {
                        set.insert(p);
                    } else {
                        set.remove(&p);
                    }
                    self.sensors.insert(s, set);
                    assert(self.sets() =~= touch(
                        old(self).sets(),
                        old(self).partner_set(),
                        s,
                        p,
                        started,
                    ));
                },
                None => {
                    assert(self.sets() =~= old(self).sets());
                },
            }
        }
    }

    /// Applies one overlap event: each side that is a sensor gains (or
    /// loses) the other side, if that one is a partner. Stopping an overlap
    /// that was never recorded changes nothing.
    pub fn apply(&mut self, ev: OverlapEvent)
        ensures
            final(self).sets() == apply_event(old(self).sets(), old(self).partner_set(), ev),
            final(self).partner_set() == old(self).partner_set(),
    {
        self.touch_one(ev.a, ev.b, ev.started);
        self.touch_one(ev.b, ev.a, ev.started);
    }

    /// Applies a tick's events in the order they arrived.
    pub fn apply_all(&mut self, evs: &Vec<OverlapEvent>)
        ensures
            final(self).sets() == apply_events(old(self).sets(), old(self).partner_set(), evs@),
            final(self).partner_set() == old(self).partner_set(),
    {
        let mut i: usize = 0;
        while i < evs.len()
            invariant
                i <= evs.len(),
                self.sets() == apply_events(
                    old(self).sets(),
                    old(self).partner_set(),
                    evs@.subrange(0, i as int),
                ),
                self.partner_set() == old(self).partner_set(),
            decreases evs.len() - i,
        {
            self.apply(evs[i]);
            proof {
                let pre = evs@.subrange(0, i + 1);
                assert(pre.drop_last() =~= evs@.subrange(0, i as int));
            }
            i = i + 1;
        }
        assert(evs@.subrange(0, evs.len() as int) =~= evs@);
    }

    /// Whether `s` is a sensor that overlaps at least one partner.
    pub fn is_active(&self, s: u64) -> (r: bool)
        ensures
            r == (self.sets().contains_key(s) && !self.sets()[s].is_empty()),
    {
        match self.sensors.get(&s) {
            Some(set) => !set.is_empty(),
            None => false,
        }
    }

    /// Whether sensor `s` overlaps `p`.
    pub fn is_touching(&self, s: u64, p: u64) -> (r: bool)
        ensures
            r == (self.sets().contains_key(s) && self.sets()[s].contains(p)),
    {
        match self.sensors.get(&s) {
            Some(set) => set.contains(&p),
            None => false,
        }
    }
}

} // verus!
