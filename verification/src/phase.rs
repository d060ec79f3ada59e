//! Counting supply centres and units, and moving on from one phase to the next.

use vstd::prelude::*;
use crate::types::{MapRegion, Phase, Power, Stpsyr};

verus! {

/// The power that region `r` counts for: the owner of its unit when units are
/// counted, the owner of the region when supply centres are counted and the
/// region is one.
pub open spec fn counts_for(r: MapRegion, units: bool) -> Option<Power> {
    if units {
        match r.unit {
            Some(u) => Some(u.owner),
            None => None,
        }
    } else if r.sc {
        r.owner
    } else {
        None
    }
}

/// How many of the first `n` regions count for the power `p`.
pub open spec fn tally_upto(map: Seq<MapRegion>, units: bool, p: Seq<char>, n: int) -> nat
    decreases n,
{
    if n <= 0 {
        0
    } else {
        let before = tally_upto(map, units, p, n - 1);
        let c = counts_for(map[n - 1], units);
        if c is Some && c->0@ == p {
            before + 1
        } else {
            before
        }
    }
}

/// The number of units (`units`) or supply centres (`!units`) of the power `p`.
pub open spec fn tally(map: Seq<MapRegion>, units: bool, p: Seq<char>) -> nat {
    tally_upto(map, units, p, map.len() as int)
}

/// Whether some power has a different number of supply centres than of units.
pub open spec fn builds_due(map: Seq<MapRegion>) -> bool {
    exists|p: Seq<char>| tally(map, false, p) != tally(map, true, p)
}

/// The powers that the first `n` regions count for, each once, in the order in
/// which the map first shows them.
pub open spec fn seen_upto(map: Seq<MapRegion>, units: bool, n: int) -> Seq<Power>
    decreases n,
{
    if n <= 0 {
        Seq::empty()
    } else {
        let before = seen_upto(map, units, n - 1);
        let c = counts_for(map[n - 1], units);
        if c is Some && !(exists|j: int| 0 <= j < before.len() && (#[trigger] before[j])@ == c->0@) {
            before.push(c->0)
        } else {
            before
        }
    }
}

/// The census of units (`units`) or supply centres (`!units`): each power
/// that has any, in the order in which the map first shows it, with its number.
pub open spec fn census(map: Seq<MapRegion>, units: bool) -> Seq<(Power, usize)> {
    let seen = seen_upto(map, units, map.len() as int);
    Seq::new(seen.len(), |i: int| (seen[i], tally(map, units, seen[i]@) as usize))
}

/// The powers of a list of counts.
pub open spec fn counted_powers(counts: Seq<(Power, usize)>) -> Seq<Power> {
    Seq::new(counts.len(), |i: int| counts[i].0)
}

/// Whether `counts` lists the powers that have something counted among the
/// first `n` regions, each once and with its number.
pub open spec fn tallies(
    counts: Seq<(Power, usize)>,
    map: Seq<MapRegion>,
    units: bool,
    n: int,
) -> bool {
    &&& forall|i: int, j: int|
        0 <= i < j < counts.len() ==> (#[trigger] counts[i]).0@ != (#[trigger] counts[j]).0@
    &&& forall|i: int|
        0 <= i < counts.len() ==> (#[trigger] counts[i]).1 > 0 && counts[i].1 == tally_upto(
            map,
            units,
            counts[i].0@,
            n,
        )
    &&& forall|p: Seq<char>| #[trigger]
        tally_upto(map, units, p, n) > 0 ==> exists|i: int|
            0 <= i < counts.len() && (#[trigger] counts[i]).0@ == p
}

/// A tally never exceeds the number of regions counted.
pub proof fn lemma_tally_bound(map: Seq<MapRegion>, units: bool, p: Seq<char>, n: int)
    requires
        0 <= n,
    ensures
        tally_upto(map, units, p, n) <= n,
    decreases n,
{
    if n > 0 {
        lemma_tally_bound(map, units, p, n - 1);
    }
}

/// Whether a phase belongs to the fall.
pub open spec fn in_fall(phase: Phase) -> bool {
    phase == Phase::FallDiplomacy || phase == Phase::FallRetreats
}

/// Whether a phase is one after which a new year may begin: a fall phase or
/// the build phase.
pub open spec fn late(phase: Phase) -> bool {
    in_fall(phase) || phase == Phase::Builds
}

/// The year after a phase of the year `year` when the phase `next` follows: a
/// new year begins with every spring.
pub open spec fn year_after(year: int, next: Phase) -> int {
    if next == Phase::SpringDiplomacy {
        year + 1
    } else {
        year
    }
}

/// A region after the change of ownership at the end of a phase: at the end
/// of a fall phase a region with a unit in it passes to the unit's owner; at
/// the end of any other phase no region changes hands.
pub open spec fn taken(r: MapRegion, phase: Phase) -> MapRegion {
    if in_fall(phase) && r.unit is Some {
        MapRegion { owner: Some(r.unit->0.owner), ..r }
    } else {
        r
    }
}

/// The board after the change of ownership at the end of `phase`.
pub open spec fn owners_updated(map: Seq<MapRegion>, phase: Phase) -> Seq<MapRegion> {
    Seq::new(map.len(), |k: int| taken(map[k], phase))
}

/// The phase that follows `phase`. Retreats follow a movement phase that
/// dislodged units; builds follow the fall when some power's supply centres
/// and units differ in number; then comes the spring of the next year.
pub open spec fn phase_after(phase: Phase, none_dislodged: bool, uneven: bool) -> Phase {
    match phase {
        Phase::SpringDiplomacy => if none_dislodged {
            Phase::FallDiplomacy
        } else {
            Phase::SpringRetreats
        },
        Phase::SpringRetreats => Phase::FallDiplomacy,
        Phase::FallDiplomacy => if none_dislodged {
            if uneven {
                Phase::Builds
            } else {
                Phase::SpringDiplomacy
            }
        } else {
            Phase::FallRetreats
        },
        Phase::FallRetreats => if uneven {
            Phase::Builds
        } else {
            Phase::SpringDiplomacy
        },
        Phase::Builds => Phase::SpringDiplomacy,
    }
}

/// Finds the first entry of `counts` for the power `p`.
pub fn entry_of(counts: &Vec<(Power, usize)>, p: &Power) -> (r: Option<usize>)
    ensures
        match r {
            Some(i) => i < counts.len() && counts[i as int].0@ == p@ && forall|j: int|
                0 <= j < i ==> (#[trigger] counts[j]).0@ != p@,
            None => forall|i: int| 0 <= i < counts.len() ==> (#[trigger] counts[i]).0@ != p@,
        },
{
    let mut i: usize = 0;
    while i < counts.len()
        invariant
            i <= counts.len(),
            forall|j: int| 0 <= j < i ==> (#[trigger] counts[j]).0@ != p@,
        decreases counts.len() - i,
    {
        if counts[i].0.same(p) {
            return Some(i);
        }
        i += 1;
    }
    None
}

/// Tells whether two lists of counts differ for some power.
fn counts_differ(
    a: &Vec<(Power, usize)>,
    b: &Vec<(Power, usize)>,
    Ghost(map): Ghost<Seq<MapRegion>>,
) -> (r: bool)
    requires
        tallies(a@, map, false, map.len() as int),
        tallies(b@, map, true, map.len() as int),
    ensures
        r == builds_due(map),
{
    let mut i: usize = 0;
    while i < a.len()
        invariant
            i <= a.len(),
            tallies(a@, map, false, map.len() as int),
            tallies(b@, map, true, map.len() as int),
            forall|j: int|
                0 <= j < i ==> tally(map, false, (#[trigger] a[j]).0@) == tally(
                    map,
                    true,
                    a[j].0@,
                ),
        decreases a.len() - i,
    {
        match entry_of(b, &a[i].0) {
            Some(j) => {
                if b[j].1 != a[i].1 {
                    assert(tally(map, false, a[i as int].0@) != tally(map, true, a[i as int].0@));
                    return true;
                }
            },
            None => {
                assert(tally(map, true, a[i as int].0@) == 0);
                assert(tally(map, false, a[i as int].0@) != tally(map, true, a[i as int].0@));
                return true;
            },
        }
        i += 1;
    }
    let mut i: usize = 0;
    while i < b.len()
        invariant
            i <= b.len(),
            tallies(a@, map, false, map.len() as int),
            tallies(b@, map, true, map.len() as int),
            forall|j: int|
                0 <= j < a.len() ==> tally(map, false, (#[trigger] a[j]).0@) == tally(
                    map,
                    true,
                    a[j].0@,
                ),
            forall|j: int|
                0 <= j < i ==> tally(map, false, (#[trigger] b[j]).0@) == tally(
                    map,
                    true,
                    b[j].0@,
                ),
        decreases b.len() - i,
    {
        match entry_of(a, &b[i].0) {
            Some(j) => {
                assert(a[j as int].0@ == b[i as int].0@);
            },
            None => {
                assert(tally(map, false, b[i as int].0@) == 0);
                assert(tally(map, false, b[i as int].0@) != tally(map, true, b[i as int].0@));
                return true;
            },
        }
        i += 1;
    }
    proof {
        assert forall|p: Seq<char>| #[trigger] tally(map, false, p) == tally(map, true, p) by {
            if tally(map, false, p) > 0 {
                let j = choose|j: int| 0 <= j < a.len() && (#[trigger] a[j]).0@ == p;
                assert(tally(map, false, a[j].0@) == tally(map, true, a[j].0@));
            } else if tally(map, true, p) > 0 {
                let j = choose|j: int| 0 <= j < b.len() && (#[trigger] b[j]).0@ == p;
                assert(tally(map, false, b[j].0@) == tally(map, true, b[j].0@));
            }
        }
    }
    false
}

impl Stpsyr {
    /// Counts, for each power, its units (`units`) or its supply centres
    /// (`!units`). Powers appear in the order in which the map first shows them.
    pub fn count(&self, units: bool) -> (r: Vec<(Power, usize)>)
        ensures
            r@ == census(self.map@, units),
            tallies(r@, self.map@, units, self.map.len() as int),
    {
        let mut out: Vec<(Power, usize)> = Vec::new();
        let mut k: usize = 0;
        assert(counted_powers(out@) =~= seen_upto(self.map@, units, 0));
        while k < self.map.len()
            invariant
                k <= self.map.len(),
                tallies(out@, self.map@, units, k as int),
                counted_powers(out@) == seen_upto(self.map@, units, k as int),
            decreases self.map.len() - k,
        {
            let region = &self.map[k];
            let holder: Option<&Power> = if units {
                match &region.unit {
                    Some(u) => Some(&u.owner),
                    None => None,
                }
            } else if region.sc {
                match &region.owner {
                    Some(p) => Some(p),
                    None => None,
                }
            } else {
                None
            };
            let ghost before = out@;
            assert(counts_for(self.map[k as int], units) == match holder {
                Some(p) => Some(*p),
                None => None,
            });
            match holder {
                Some(p) => {
                    match entry_of(&out, p) {
                        Some(i) => {
                            proof {
                                lemma_tally_bound(self.map@, units, p@, k as int);
                            }
                            let bumped = (out[i].0.clone(), out[i].1 + 1);
                            out.set(i, bumped);
                            proof {
                                assert(counted_powers(before)[i as int] == before[i as int].0);
                                assert(counted_powers(out@) =~= counted_powers(before));
                                assert forall|j: int| 0 <= j < out.len() implies (#[trigger] out[j]).1
                                    > 0 && out[j].1 == tally_upto(
                                    self.map@,
                                    units,
                                    out[j].0@,
                                    k as int + 1,
                                ) by {
                                    if j != i as int {
                                        assert(out[j] == before[j]);
                                        assert(before[j].0@ != before[i as int].0@);
                                    }
                                }
                                assert forall|q: Seq<char>| #[trigger]
                                    tally_upto(self.map@, units, q, k as int + 1)
                                        > 0 implies exists|j: int|
                                    0 <= j < out.len() && (#[trigger] out[j]).0@ == q by {
                                    if q == p@ {
                                        assert(out[i as int].0@ == q);
                                    } else {
                                        assert(tally_upto(self.map@, units, q, k as int) > 0);
                                        let j = choose|j: int|
                                            0 <= j < before.len() && (#[trigger] before[j]).0@
                                                == q;
                                        assert(out[j].0@ == q);
                                    }
                                }
                                assert forall|a: int, b: int| 0 <= a < b < out.len() implies (
                                #[trigger] out[a]).0@ != (#[trigger] out[b]).0@ by {
                                    assert(out[a].0@ == before[a].0@);
                                    assert(out[b].0@ == before[b].0@);
                                }
                            }
                        },
                        None => {
                            out.push((p.clone(), 1));
                            proof {
                                assert forall|j: int| 0 <= j < before.len() implies (
                                #[trigger] counted_powers(before)[j])@ != p@ by {
                                    assert(before[j].0@ != p@);
                                }
                                assert(counted_powers(out@) =~= counted_powers(before).push(*p));
                                assert(tally_upto(self.map@, units, p@, k as int) == 0) by {
                                    if tally_upto(self.map@, units, p@, k as int) > 0 {
                                        let j = choose|j: int|
                                            0 <= j < before.len() && (#[trigger] before[j]).0@
                                                == p@;
                                    }
                                }
                                assert forall|j: int| 0 <= j < out.len() implies (#[trigger] out[j]).1
                                    > 0 && out[j].1 == tally_upto(
                                    self.map@,
                                    units,
                                    out[j].0@,
                                    k as int + 1,
                                ) by {
                                    if j < before.len() {
                                        assert(out[j] == before[j]);
                                    }
                                }
                                assert forall|q: Seq<char>| #[trigger]
                                    tally_upto(self.map@, units, q, k as int + 1)
                                        > 0 implies exists|j: int|
                                    0 <= j < out.len() && (#[trigger] out[j]).0@ == q by {
                                    if q == p@ {
                                        assert(out[out.len() - 1].0@ == q);
                                    } else {
                                        assert(tally_upto(self.map@, units, q, k as int) > 0);
                                        let j = choose|j: int|
                                            0 <= j < before.len() && (#[trigger] before[j]).0@
                                                == q;
                                        assert(out[j].0@ == q);
                                    }
                                }
                                assert forall|a: int, b: int| 0 <= a < b < out.len() implies (
                                #[trigger] out[a]).0@ != (#[trigger] out[b]).0@ by {
                                    assert(out[a] == before[a]);
                                    if b < before.len() {
                                        assert(out[b] == before[b]);
                                    }
                                }
                            }
                        },
                    }
                },
                None => {
                    assert forall|q: Seq<char>| #[trigger]
                        tally_upto(self.map@, units, q, k as int + 1) > 0 implies exists|j: int|
                        0 <= j < out.len() && (#[trigger] out[j]).0@ == q by {
                        assert(tally_upto(self.map@, units, q, k as int) > 0);
                        let j = choose|j: int|
                            0 <= j < before.len() && (#[trigger] before[j]).0@ == q;
                        assert(out[j].0@ == q);
                    }
                },
            }
            k += 1;
        }
        proof {
            assert forall|i: int| 0 <= i < out.len() implies #[trigger] out@[i] == census(
                self.map@,
                units,
            )[i] by {
                assert(counted_powers(out@)[i] == out@[i].0);
            }
            assert(out@ =~= census(self.map@, units));
        }
        out
    }

    /// The number of supply centres that each power owns.
    pub fn sc_counts(&self) -> (r: Vec<(Power, usize)>)
        ensures
            r@ == census(self.map@, false),
            tallies(r@, self.map@, false, self.map.len() as int),
    {
        self.count(false)
    }

    /// The number of units that each power has on the board.
    pub fn unit_counts(&self) -> (r: Vec<(Power, usize)>)
        ensures
            r@ == census(self.map@, true),
            tallies(r@, self.map@, true, self.map.len() as int),
    {
        self.count(true)
    }

    /// Ends the current phase: after a fall phase regions pass to the owners of
    /// the units in them; the game moves on to the phase that follows, and with
    /// every spring a new year begins.
    pub fn next_phase(&mut self)
        requires
            late(old(self).phase) ==> old(self).year < i32::MAX,
        ensures
            final(self).map@ == owners_updated(old(self).map@, old(self).phase),
            final(self).phase == phase_after(
                old(self).phase,
                old(self).dislodged.len() == 0,
                builds_due(final(self).map@),
            ),
            final(self).year == year_after(old(self).year as int, final(self).phase),
            *final(self) == (Stpsyr {
                map: final(self).map,
                phase: final(self).phase,
                year: final(self).year,
                ..*old(self)
            }),
    {
        let fall = match self.phase {
            Phase::FallDiplomacy => true,
            Phase::FallRetreats => true,
            _ => false,
        };
        let n = self.map.len();
        let mut k: usize = 0;
        while k < n
            invariant
                k <= n,
                n == self.map.len(),
                fall == in_fall(self.phase),
                *self == (Stpsyr { map: self.map, ..*old(self) }),
                forall|j: int|
                    0 <= j < k ==> #[trigger] self.map[j] == taken(old(self).map[j], self.phase),
                forall|j: int| k <= j < n ==> #[trigger] self.map[j] == old(self).map[j],
            decreases n - k,
        {
            if fall {
                let owner = match &self.map[k].unit {
                    Some(u) => Some(u.owner.clone()),
                    None => None,
                };
                if owner.is_some() {
                    self.map[k].owner = owner;
                }
            }
            k += 1;
        }
        assert(self.map@ =~= owners_updated(old(self).map@, old(self).phase));
        let none_dislodged = self.dislodged.len() == 0;
        self.phase = match self.phase {
            Phase::SpringDiplomacy => if none_dislodged {
                Phase::FallDiplomacy
            } else {
                Phase::SpringRetreats
            },
            Phase::SpringRetreats => Phase::FallDiplomacy,
            Phase::FallDiplomacy => if none_dislodged {
                if self.uneven() {
                    Phase::Builds
                } else {
                    Phase::SpringDiplomacy
                }
            } else {
                Phase::FallRetreats
            },
            Phase::FallRetreats => if self.uneven() {
                Phase::Builds
            } else {
                Phase::SpringDiplomacy
            },
            Phase::Builds => Phase::SpringDiplomacy,
        };
        match self.phase {
            Phase::SpringDiplomacy => {
                self.year = self.year + 1;
            },
            _ => {},
        }
    }

    /// Tells whether some power has a different number of supply centres than of units.
    pub fn uneven(&self) -> (r: bool)
        ensures
            r == builds_due(self.map@),
    {
        let centres = self.sc_counts();
        let units = self.unit_counts();
        counts_differ(&centres, &units, Ghost(self.map@))
    }
}

} // verus!
