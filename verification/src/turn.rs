//! A whole movement phase: resolve every order, move the units, go on to the
//! next phase.

use vstd::prelude::*;
use crate::adjudicate::depth_limit;
use crate::apply::{board_after, bounced, displaced, lands};
use crate::model;
use crate::model::{AdjudicationError, Progress};
use crate::orders::diplomacy;
use crate::phase::{builds_due, late, owners_updated, phase_after, year_after};
use crate::progress::fixed_part;
use crate::types::{MapRegion, Order, OrderState, Phase, Province, Stpsyr, Unit};

verus! {

/// Whether every order has its final resolution.
pub open spec fn all_resolved(orders: Seq<Order>) -> bool {
    forall|i: int| 0 <= i < orders.len() ==> (#[trigger] orders[i]).state == OrderState::RESOLVED
}

/// The progress after the orders `i..n` have been resolved one after the
/// other. An order that is left without a final resolution is an error.
pub open spec fn resolve_from(map: Seq<MapRegion>, s: Progress, i: int, n: int, d: nat) -> Result<
    Progress,
    AdjudicationError,
>
    decreases n - i,
{
    if i < 0 || i >= n {
        Ok(s)
    } else {
        match model::resolve(map, s, i, d) {
            Err(e) => Err(e),
            Ok((s1, _)) => if s1.orders[i].state != OrderState::RESOLVED {
                Err(AdjudicationError::Unsettled)
            } else {
                resolve_from(map, s1, i + 1, n, d)
            },
        }
    }
}

/// The progress after all orders of the phase have been resolved, in the
/// order in which they were submitted. In it every order is resolved.
pub open spec fn resolved_all(map: Seq<MapRegion>, s: Progress) -> Result<
    Progress,
    AdjudicationError,
> {
    match resolve_from(
        map,
        s,
        0,
        s.orders.len() as int,
        depth_limit(s.orders.len()),
    ) {
        Err(e) => Err(e),
        Ok(s1) => if all_resolved(s1.orders) {
            Ok(s1)
        } else {
            Err(AdjudicationError::Unsettled)
        },
    }
}

/// The progress after the adjudication of a phase: all orders are resolved,
/// and every move that succeeds starts from and leads to a province on the map.
pub open spec fn adjudicated(map: Seq<MapRegion>, s: Progress) -> Result<
    Progress,
    AdjudicationError,
> {
    match resolved_all(map, s) {
        Err(e) => Err(e),
        Ok(s1) => if lands(map, s1.orders) {
            Ok(s1)
        } else {
            Err(AdjudicationError::MissingRegion)
        },
    }
}

/// The result of ending a movement phase, with the dislodged units as a sequence.
pub open spec fn listed(r: Result<Vec<(Province, Unit)>, AdjudicationError>) -> Result<
    Seq<(Province, Unit)>,
    AdjudicationError,
> {
    match r {
        Ok(list) => Ok(list@),
        Err(e) => Err(e),
    }
}

/// Adjudication leaves a well-formed game well formed.
pub proof fn lemma_stays_sound(before: Stpsyr, after: Stpsyr)
    requires
        before.sound(),
        after.advanced_from(before),
        after.ready(),
    ensures
        after.sound(),
{
    assert forall|i: int| 0 <= i < after.orders.len() implies fixed_part(
        #[trigger] after.orders[i],
    ) == fixed_part(before.orders[i]) by {}
}

/// Copies a list of dislodged units.
pub fn clone_dislodged(v: &Vec<(Province, Unit)>) -> (r: Vec<(Province, Unit)>)
    ensures
        r@ == v@,
{
    let mut out: Vec<(Province, Unit)> = Vec::new();
    let mut i: usize = 0;
    while i < v.len()
        invariant
            i <= v.len(),
            out@ == v@.subrange(0, i as int),
        decreases v.len() - i,
    {
        out.push((v[i].0.clone(), v[i].1.clone()));
        i += 1;
        assert(out@ =~= v@.subrange(0, i as int));
    }
    assert(out@ =~= v@);
    out
}

impl Stpsyr {
    /// Tells whether every order has its final resolution.
    pub fn settled(&self) -> (r: bool)
        ensures
            r == all_resolved(self.orders@),
    {
        let mut i: usize = 0;
        while i < self.orders.len()
            invariant
                i <= self.orders.len(),
                forall|j: int|
                    0 <= j < i ==> (#[trigger] self.orders[j]).state == OrderState::RESOLVED,
            decreases self.orders.len() - i,
        {
            match self.orders[i].state {
                OrderState::RESOLVED => {},
                _ => {
                    return false;
                },
            }
            i += 1;
        }
        true
    }

    /// Resolves all orders of the phase, in the order in which they were
    /// submitted. On success every order is resolved.
    pub fn resolve_all(&mut self) -> (r: Result<(), AdjudicationError>)
        requires
            old(self).ready(),
        ensures
            final(self).advanced_from(*old(self)),
            final(self).ready(),
            match r {
                Ok(_) => resolved_all(old(self).map@, old(self).progress()) == Ok::<
                    Progress,
                    AdjudicationError,
                >(final(self).progress()) && all_resolved(final(self).orders@),
                Err(e) => resolved_all(old(self).map@, old(self).progress()) == Err::<
                    Progress,
                    AdjudicationError,
                >(e),
            },
    {
        let n = self.orders.len();
        let d = self.depth();
        let mut i: usize = 0;
        while i < n
            invariant
                i <= n,
                n == self.orders.len(),
                n == old(self).orders.len(),
                d == depth_limit(n as nat),
                self.advanced_from(*old(self)),
                self.ready(),
                resolve_from(self.map@, self.progress(), i as int, n as int, d as nat)
                    == resolve_from(
                    old(self).map@,
                    old(self).progress(),
                    0,
                    n as int,
                    d as nat,
                ),
            decreases n - i,
        {
            match self.resolve_within(i, d) {
                Err(e) => {
                    return Err(e);
                },
                Ok(_) => {},
            }
            match self.orders[i].state {
                OrderState::RESOLVED => {},
                _ => {
                    return Err(AdjudicationError::Unsettled);
                },
            }
            i += 1;
        }
        if !self.settled() {
            return Err(AdjudicationError::Unsettled);
        }
        Ok(())
    }

    /// Whether `self` is the game `before` after the call that ended its
    /// movement phase returned `r`. When the adjudication succeeds, the units
    /// have moved as the resolved orders say, the dislodged units have joined the
    /// dislodged list, the contested provinces are those of this phase, the orders
    /// are gone, the next phase has begun, and `r` holds the dislodged list. When
    /// it fails, the board is as it was.
    pub open spec fn orders_applied(
        &self,
        before: Stpsyr,
        r: Result<Seq<(Province, Unit)>, AdjudicationError>,
    ) -> bool {
        match r {
            Err(e) => {
                &&& adjudicated(before.map@, before.progress()) == Err::<
                    Progress,
                    AdjudicationError,
                >(e)
                &&& self.advanced_from(before)
                &&& self.ready()
                &&& (before.sound() ==> self.sound())
            },
            Ok(list) => {
                let done = adjudicated(before.map@, before.progress());
                &&& done is Ok
                &&& self.map@ == owners_updated(
                    board_after(before.map@, done->Ok_0.orders),
                    before.phase,
                )
                &&& self.dislodged@ == before.dislodged@ + displaced(
                    before.map@,
                    done->Ok_0.orders,
                )
                &&& self.contested@ == bounced(done->Ok_0.orders, Seq::empty())
                &&& self.phase == phase_after(
                    before.phase,
                    self.dislodged.len() == 0,
                    builds_due(self.map@),
                )
                &&& self.orders@ == Seq::<Order>::empty()
                &&& self.dependencies@ == Seq::<usize>::empty()
                &&& self.year == year_after(before.year as int, self.phase)
                &&& self.retreats == before.retreats
                &&& self.adjusts == before.adjusts
                &&& list == self.dislodged@
                &&& self.sound()
            },
        }
    }

    /// Ends a movement phase: resolves the submitted orders, moves the units,
    /// and goes on to the next phase. Returns the units that are dislodged and
    /// wait for a retreat.
    ///
    /// When the adjudication fails, no unit is moved and the phase stays; the
    /// orders keep what the resolver has found out so far.
    pub fn apply_orders(&mut self) -> (r: Result<Vec<(Province, Unit)>, AdjudicationError>)
        requires
            old(self).sound(),
            diplomacy(old(self).phase),
            late(old(self).phase) ==> old(self).year < i32::MAX,
        ensures
            final(self).orders_applied(*old(self), listed(r)),
    {
        match self.resolve_all() {
            Err(e) => {
                proof {
                    lemma_stays_sound(*old(self), *self);
                }
                return Err(e);
            },
            Ok(_) => {},
        }
        if !self.all_land() {
            proof {
                lemma_stays_sound(*old(self), *self);
            }
            return Err(AdjudicationError::MissingRegion);
        }
        self.contested = Vec::new();
        self.apply_resolved();
        self.next_phase();
        self.orders = Vec::new();
        self.dependencies = Vec::new();
        proof {
            assert forall|i: int, j: int| 0 <= i < j < self.map.len() implies !(
            #[trigger] self.map[i]).province.same((#[trigger] self.map[j]).province) by {
                assert(self.map[i].province.name == old(self).map[i].province.name);
                assert(self.map[j].province.name == old(self).map[j].province.name);
            }
        }
        Ok(clone_dislodged(&self.dislodged))
    }

    /// Ends the current phase, whichever it is.
    pub fn apply(&mut self) -> (r: Result<(), AdjudicationError>)
        requires
            old(self).sound(),
            late(old(self).phase) ==> old(self).year < i32::MAX,
        ensures
            match old(self).phase {
                Phase::SpringDiplomacy | Phase::FallDiplomacy => final(self).orders_applied(
                    *old(self),
                    match r {
                        Ok(_) => Ok(final(self).dislodged@),
                        Err(e) => Err(e),
                    },
                ),
                Phase::SpringRetreats | Phase::FallRetreats => r is Ok && final(self).retreats_applied(
                    *old(self),
                ),
                Phase::Builds => r is Ok && final(self).adjusts_applied(*old(self)),
            },
    {
        match self.phase {
            Phase::SpringDiplomacy | Phase::FallDiplomacy => {
                match self.apply_orders() {
                    Ok(_) => Ok(()),
                    Err(e) => Err(e),
                }
            },
            Phase::SpringRetreats | Phase::FallRetreats => {
                self.apply_retreats();
                Ok(())
            },
            Phase::Builds => {
                self.apply_adjusts();
                Ok(())
            },
        }
    }
}

} // verus!
