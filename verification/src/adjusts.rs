//! The build phase: building and disbanding units.

use vstd::prelude::*;
use crate::board::region_of;
use crate::phase::{
    builds_due, entry_of, late, owners_updated, phase_after, tally, year_after,
};
use crate::types::{Adjust, AdjustAction, MapRegion, Phase, Power, Province, Stpsyr, Unit, UnitType};

verus! {

/// How many of the first `n` adjustment orders the power `p` has given.
pub open spec fn given_upto(adjusts: Seq<Adjust>, p: Seq<char>, n: int) -> nat
    decreases n,
{
    if n <= 0 {
        0
    } else {
        given_upto(adjusts, p, n - 1) + if adjusts[n - 1].owner@ == p {
            1nat
        } else {
            0nat
        }
    }
}

/// Whether the power `p` has already given an adjustment order for `province`.
pub open spec fn adjusted(adjusts: Seq<Adjust>, p: Seq<char>, province: Province) -> bool {
    exists|i: int|
        0 <= i < adjusts.len() && (#[trigger] adjusts[i]).owner@ == p
            && adjusts[i].province.same(province)
}

/// Whether `owner` may still build (`building`) or has still to disband
/// (`!building`): the power has both supply centres and units, their numbers
/// differ in the right direction, and the orders given so far do not make up
/// the difference exactly.
pub open spec fn due(game: Stpsyr, owner: Power, building: bool) -> bool {
    let centres = tally(game.map@, false, owner@);
    let units = tally(game.map@, true, owner@);
    let given = given_upto(game.adjusts@, owner@, game.adjusts.len() as int);
    &&& centres > 0
    &&& units > 0
    &&& if building {
        centres > units && centres - units != given
    } else {
        units > centres && units - centres != given
    }
}

/// Whether the adjustment can be made in `region`: a unit is disbanded where
/// the power has one; a unit is built in an empty home region of the power
/// that a unit of that kind can leave.
pub open spec fn fits(region: MapRegion, owner: Power, action: AdjustAction) -> bool {
    match action {
        AdjustAction::Disband => region.unit is Some && region.unit->0.owner@ == owner@,
        AdjustAction::Build { unit_type } => {
            &&& region.unit is None
            &&& region.home_power is Some
            &&& region.home_power->0@ == owner@
            &&& match unit_type {
                UnitType::Army => region.army_borders.len() > 0,
                UnitType::Fleet => region.fleet_borders.len() > 0,
            }
        },
    }
}

/// Whether the adjustment order that `owner` gives for `province` is accepted.
pub open spec fn adjustable(game: Stpsyr, owner: Power, province: Province, action: AdjustAction) -> bool {
    &&& due(game, owner, action is Build)
    &&& !adjusted(game.adjusts@, owner@, province)
    &&& region_of(game.map@, province) is Some
    &&& fits(game.map[region_of(game.map@, province)->0 as int], owner, action)
}

/// The unit in a region after an adjustment of it.
pub open spec fn adjusted_unit(a: Adjust) -> Option<Unit> {
    match a.action {
        AdjustAction::Disband => None,
        AdjustAction::Build { unit_type } => Some(Unit { owner: a.owner, unit_type }),
    }
}

/// The board after the first `n` adjustment orders have been carried out, one
/// after the other. An order for a province that is not on the map changes
/// nothing.
pub open spec fn adjusted_upto(map: Seq<MapRegion>, adjusts: Seq<Adjust>, n: int) -> Seq<MapRegion>
    decreases n,
{
    if n <= 0 {
        map
    } else {
        let before = adjusted_upto(map, adjusts, n - 1);
        match region_of(before, adjusts[n - 1].province) {
            Some(k) => before.update(
                k as int,
                MapRegion { unit: adjusted_unit(adjusts[n - 1]), ..before[k as int] },
            ),
            None => before,
        }
    }
}

impl Stpsyr {
    /// Counts the adjustment orders that `owner` has given and tells whether
    /// one of them is for `province`.
    fn given(&self, owner: &Power, province: &Province) -> (r: (usize, bool))
        ensures
            r.0 == given_upto(self.adjusts@, owner@, self.adjusts.len() as int),
            r.1 == adjusted(self.adjusts@, owner@, *province),
    {
        let mut n: usize = 0;
        let mut dup = false;
        let mut i: usize = 0;
        while i < self.adjusts.len()
            invariant
                i <= self.adjusts.len(),
                n <= i,
                n == given_upto(self.adjusts@, owner@, i as int),
                dup == (exists|j: int|
                    0 <= j < i && (#[trigger] self.adjusts[j]).owner@ == owner@
                        && self.adjusts[j].province.same(*province)),
            decreases self.adjusts.len() - i,
        {
            if self.adjusts[i].owner.same(owner) {
                n += 1;
                if self.adjusts[i].province.is(province) {
                    dup = true;
                }
            }
            i += 1;
        }
        (n, dup)
    }

    /// Tells whether `owner` may still build or has still to disband.
    fn is_due(&self, owner: &Power, building: bool, given: usize) -> (r: bool)
        requires
            given == given_upto(self.adjusts@, owner@, self.adjusts.len() as int),
        ensures
            r == due(*self, *owner, building),
    {
        let centres = self.sc_counts();
        let units = self.unit_counts();
        let c = match entry_of(&centres, owner) {
            Some(i) => centres[i].1,
            None => {
                assert(tally(self.map@, false, owner@) == 0);
                return false;
            },
        };
        let u = match entry_of(&units, owner) {
            Some(i) => units[i].1,
            None => {
                assert(tally(self.map@, true, owner@) == 0);
                return false;
            },
        };
        if building {
            c > u && c - u != given
        } else {
            u > c && u - c != given
        }
    }

    /// Tells whether the adjustment order is acceptable.
    pub fn accepts_adjust(&self, owner: &Power, province: &Province, action: &AdjustAction) -> (r:
        bool)
        ensures
            r == adjustable(*self, *owner, *province, *action),
    {
        let (given, dup) = self.given(owner, province);
        let building = match action {
            AdjustAction::Build { .. } => true,
            AdjustAction::Disband => false,
        };
        if !self.is_due(owner, building, given) {
            return false;
        }
        if dup {
            return false;
        }
        let region = match self.region_index(province) {
            Some(k) => &self.map[k],
            None => {
                return false;
            },
        };
        match action {
            AdjustAction::Disband => match &region.unit {
                Some(u) => u.owner.same(owner),
                None => false,
            },
            AdjustAction::Build { unit_type } => {
                if region.unit.is_some() {
                    return false;
                }
                let home = match &region.home_power {
                    Some(p) => p.same(owner),
                    None => false,
                };
                home && match unit_type {
                    UnitType::Army => region.army_borders.len() > 0,
                    UnitType::Fleet => region.fleet_borders.len() > 0,
                }
            },
        }
    }

    /// Submits an adjustment order for the build phase. An order that is not
    /// acceptable is dropped without a trace.
    pub fn add_adjust(&mut self, owner: Power, province: Province, action: AdjustAction)
        requires
            old(self).phase == Phase::Builds,
        ensures
            *final(self) == (Stpsyr { adjusts: final(self).adjusts, ..*old(self) }),
            final(self).adjusts@ == if adjustable(*old(self), owner, province, action) {
                old(self).adjusts@.push(Adjust { owner, province, action })
            } else {
                old(self).adjusts@
            },
    {
        if self.accepts_adjust(&owner, &province, &action) {
            self.adjusts.push(Adjust { owner, province, action });
        }
    }

    /// Whether `self` is the game `before` after its build phase has ended:
    /// the adjustment orders have been carried out and the next phase has begun.
    pub open spec fn adjusts_applied(&self, before: Stpsyr) -> bool {
        &&& self.map@ == owners_updated(
            adjusted_upto(before.map@, before.adjusts@, before.adjusts.len() as int),
            before.phase,
        )
        &&& self.phase == phase_after(
            before.phase,
            before.dislodged.len() == 0,
            builds_due(self.map@),
        )
        &&& self.year == year_after(before.year as int, self.phase)
        &&& self.adjusts@ == Seq::<Adjust>::empty()
        &&& (before.sound() && before.orders.len() == 0 ==> self.sound())
        &&& *self == (Stpsyr {
            map: self.map,
            phase: self.phase,
            year: self.year,
            adjusts: self.adjusts,
            ..before
        })
    }

    /// Ends the build phase: carries out the adjustment orders and begins the
    /// next year.
    pub fn apply_adjusts(&mut self)
        requires
            late(old(self).phase) ==> old(self).year < i32::MAX,
        ensures
            final(self).adjusts_applied(*old(self)),
    {
        let mut i: usize = 0;
        while i < self.adjusts.len()
            invariant
                i <= self.adjusts.len(),
                *self == (Stpsyr { map: self.map, ..*old(self) }),
                self.map@ == adjusted_upto(old(self).map@, self.adjusts@, i as int),
                self.map.len() == old(self).map.len(),
                forall|j: int|
                    0 <= j < self.map.len() ==> (#[trigger] self.map[j]).province == old(
                        self,
                    ).map[j].province,
            decreases self.adjusts.len() - i,
        {
            match self.region_index(&self.adjusts[i].province) {
                Some(k) => {
                    let ghost before = self.map@;
                    let unit = match self.adjusts[i].action {
                        AdjustAction::Disband => None,
                        AdjustAction::Build { unit_type } => Some(
                            Unit { owner: self.adjusts[i].owner.clone(), unit_type },
                        ),
                    };
                    self.map[k].unit = unit;
                    assert(self.map@ =~= before.update(
                        k as int,
                        MapRegion { unit: adjusted_unit(self.adjusts[i as int]), ..before[k as int] },
                    ));
                },
                None => {},
            }
            i += 1;
        }
        self.next_phase();
        self.adjusts = Vec::new();
    }
}

} // verus!
