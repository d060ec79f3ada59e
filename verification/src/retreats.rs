//! The retreat phase: dislodged units move away or are disbanded.

use vstd::prelude::*;
use crate::board::{contains_province, lists, region_of};
use crate::orders::{can_reach, reaches};
use crate::phase::{builds_due, late, owners_updated, phase_after, year_after};
use crate::types::{MapRegion, Phase, Power, Province, Retreat, RetreatAction, Stpsyr, Unit};

verus! {

/// Whether the phase is one in which dislodged units retreat.
pub open spec fn retreating(phase: Phase) -> bool {
    phase == Phase::SpringRetreats || phase == Phase::FallRetreats
}

/// The index of the first entry at or after `i` of the dislodged list for
/// `province`, or the length of the list.
pub open spec fn dislodged_from(list: Seq<(Province, Unit)>, province: Province, i: int) -> int
    decreases list.len() - i,
{
    if i < 0 || i >= list.len() {
        list.len() as int
    } else if list[i].0.same(province) {
        i
    } else {
        dislodged_from(list, province, i + 1)
    }
}

/// The unit that was dislodged from `province`.
pub open spec fn dislodged_at(list: Seq<(Province, Unit)>, province: Province) -> Option<Unit> {
    let k = dislodged_from(list, province, 0);
    if k < list.len() {
        Some(list[k].1)
    } else {
        None
    }
}

/// Whether a retreat order has already been given for `province`.
pub open spec fn retreat_given(retreats: Seq<Retreat>, province: Province) -> bool {
    exists|i: int| 0 <= i < retreats.len() && (#[trigger] retreats[i]).province.same(province)
}

/// Whether the retreat order that `owner` gives for the unit dislodged from
/// `province` is accepted. The unit must be the power's and must not have a
/// retreat order yet. It may be disbanded; it may move to a neighbour that is
/// on the map, is empty and was not contested in the movement phase.
pub open spec fn retreatable(game: Stpsyr, owner: Power, province: Province, action: RetreatAction) -> bool {
    match dislodged_at(game.dislodged@, province) {
        None => false,
        Some(unit) => {
            &&& unit.owner@ == owner@
            &&& !retreat_given(game.retreats@, province)
            &&& match action {
                RetreatAction::Disband => true,
                RetreatAction::Move { to } => {
                    &&& region_of(game.map@, province) is Some
                    &&& region_of(game.map@, to) is Some
                    &&& game.map[region_of(game.map@, to)->0 as int].unit is None
                    &&& !lists(game.contested@, to)
                    &&& reaches(
                        game.map[region_of(game.map@, province)->0 as int],
                        unit.unit_type,
                        to,
                        true,
                    )
                },
            }
        },
    }
}

/// Where a retreat order goes, if it is a move.
pub open spec fn haven(r: Retreat) -> Option<Province> {
    match r.action {
        RetreatAction::Move { to } => Some(to),
        RetreatAction::Disband => None,
    }
}

/// Whether another retreat than the `i`-th goes to the same province as it.
pub open spec fn clashes(retreats: Seq<Retreat>, i: int) -> bool {
    exists|j: int|
        0 <= j < retreats.len() && j != i && haven(#[trigger] retreats[j]) is Some && haven(
            retreats[j],
        )->0.same(haven(retreats[i])->0)
}

/// The board after the first `n` retreat orders have been carried out. A
/// retreat takes place when it is a move that no other retreat clashes with,
/// the unit is on the dislodged list, and the province it goes to is on the map
/// and empty. All other dislodged units are disbanded.
pub open spec fn retreated_upto(
    map: Seq<MapRegion>,
    retreats: Seq<Retreat>,
    dislodged: Seq<(Province, Unit)>,
    n: int,
) -> Seq<MapRegion>
    decreases n,
{
    if n <= 0 {
        map
    } else {
        let before = retreated_upto(map, retreats, dislodged, n - 1);
        let r = retreats[n - 1];
        if haven(r) is Some && !clashes(retreats, n - 1) && region_of(before, haven(r)->0) is Some
            && before[region_of(before, haven(r)->0)->0 as int].unit is None && dislodged_at(
            dislodged,
            r.province,
        ) is Some {
            let k = region_of(before, haven(r)->0)->0 as int;
            before.update(k, MapRegion { unit: dislodged_at(dislodged, r.province), ..before[k] })
        } else {
            before
        }
    }
}

impl Stpsyr {
    /// Finds the unit that was dislodged from `province`.
    pub fn dislodged_unit(&self, province: &Province) -> (r: Option<Unit>)
        ensures
            r == dislodged_at(self.dislodged@, *province),
    {
        let mut i: usize = 0;
        while i < self.dislodged.len()
            invariant
                i <= self.dislodged.len(),
                dislodged_from(self.dislodged@, *province, 0) == dislodged_from(
                    self.dislodged@,
                    *province,
                    i as int,
                ),
            decreases self.dislodged.len() - i,
        {
            if self.dislodged[i].0.is(province) {
                return Some(self.dislodged[i].1.clone());
            }
            i += 1;
        }
        None
    }

    /// Tells whether a retreat order has already been given for `province`.
    fn has_retreat(&self, province: &Province) -> (r: bool)
        ensures
            r == retreat_given(self.retreats@, *province),
    {
        let mut i: usize = 0;
        while i < self.retreats.len()
            invariant
                i <= self.retreats.len(),
                forall|j: int|
                    0 <= j < i ==> !(#[trigger] self.retreats[j]).province.same(*province),
            decreases self.retreats.len() - i,
        {
            if self.retreats[i].province.is(province) {
                return true;
            }
            i += 1;
        }
        false
    }

    /// Tells whether the retreat order is acceptable.
    pub fn accepts_retreat(&self, owner: &Power, province: &Province, action: &RetreatAction) -> (r:
        bool)
        ensures
            r == retreatable(*self, *owner, *province, *action),
    {
        let unit = match self.dislodged_unit(province) {
            Some(u) => u,
            None => {
                return false;
            },
        };
        if !unit.owner.same(owner) {
            return false;
        }
        if self.has_retreat(province) {
            return false;
        }
        match action {
            RetreatAction::Disband => true,
            RetreatAction::Move { to } => {
                let from = match self.region_index(province) {
                    Some(k) => &self.map[k],
                    None => {
                        return false;
                    },
                };
                let target = match self.region_index(to) {
                    Some(k) => &self.map[k],
                    None => {
                        return false;
                    },
                };
                if target.unit.is_some() {
                    return false;
                }
                if contains_province(&self.contested, to) {
                    return false;
                }
                can_reach(from, unit.unit_type, to, true)
            },
        }
    }

    /// Submits a retreat order. An order that is not acceptable is dropped
    /// without a trace.
    pub fn add_retreat(&mut self, owner: Power, province: Province, action: RetreatAction)
        requires
            retreating(old(self).phase),
        ensures
            *final(self) == (Stpsyr { retreats: final(self).retreats, ..*old(self) }),
            final(self).retreats@ == if retreatable(*old(self), owner, province, action) {
                old(self).retreats@.push(Retreat { owner, province, action })
            } else {
                old(self).retreats@
            },
    {
        if self.accepts_retreat(&owner, &province, &action) {
            self.retreats.push(Retreat { owner, province, action });
        }
    }

    /// Tells whether another retreat than the `i`-th goes to the same province.
    fn is_clash(&self, i: usize) -> (r: bool)
        requires
            i < self.retreats.len(),
            haven(self.retreats[i as int]) is Some,
        ensures
            r == clashes(self.retreats@, i as int),
    {
        let mut j: usize = 0;
        while j < self.retreats.len()
            invariant
                j <= self.retreats.len(),
                i < self.retreats.len(),
                haven(self.retreats[i as int]) is Some,
                forall|x: int|
                    0 <= x < j ==> !(x != i && haven(#[trigger] self.retreats[x]) is Some && haven(
                        self.retreats[x],
                    )->0.same(haven(self.retreats[i as int])->0)),
            decreases self.retreats.len() - j,
        {
            if j != i {
                let same = match (&self.retreats[j].action, &self.retreats[i].action) {
                    (RetreatAction::Move { to: a }, RetreatAction::Move { to: b }) => a.is(b),
                    _ => false,
                };
                if same {
                    return true;
                }
            }
            j += 1;
        }
        false
    }

    /// Whether `self` is the game `before` after its retreat phase has ended:
    /// the retreats have been carried out, the dislodged list is empty, and the
    /// next phase has begun.
    pub open spec fn retreats_applied(&self, before: Stpsyr) -> bool {
        &&& self.map@ == owners_updated(
            retreated_upto(
                before.map@,
                before.retreats@,
                before.dislodged@,
                before.retreats.len() as int,
            ),
            before.phase,
        )
        &&& self.phase == phase_after(before.phase, true, builds_due(self.map@))
        &&& self.year == year_after(before.year as int, self.phase)
        &&& self.retreats@ == Seq::<Retreat>::empty()
        &&& self.dislodged@ == Seq::<(Province, Unit)>::empty()
        &&& (before.sound() && before.orders.len() == 0 ==> self.sound())
        &&& *self == (Stpsyr {
            map: self.map,
            phase: self.phase,
            year: self.year,
            retreats: self.retreats,
            dislodged: self.dislodged,
            ..before
        })
    }

    /// Ends a retreat phase: carries out the retreats, disbands the dislodged
    /// units that do not retreat, and goes on to the next phase.
    pub fn apply_retreats(&mut self)
        requires
            late(old(self).phase) ==> old(self).year < i32::MAX,
        ensures
            final(self).retreats_applied(*old(self)),
    {
        let mut i: usize = 0;
        while i < self.retreats.len()
            invariant
                i <= self.retreats.len(),
                *self == (Stpsyr { map: self.map, ..*old(self) }),
                self.map@ == retreated_upto(
                    old(self).map@,
                    self.retreats@,
                    self.dislodged@,
                    i as int,
                ),
                self.map.len() == old(self).map.len(),
                forall|j: int|
                    0 <= j < self.map.len() ==> (#[trigger] self.map[j]).province == old(
                        self,
                    ).map[j].province,
            decreases self.retreats.len() - i,
        {
            let target = match &self.retreats[i].action {
                RetreatAction::Move { to } => {
                    if self.is_clash(i) {
                        None
                    } else {
                        self.region_index(to)
                    }
                },
                RetreatAction::Disband => None,
            };
            match target {
                Some(k) => {
                    if self.map[k].unit.is_none() {
                        match self.dislodged_unit(&self.retreats[i].province) {
                            Some(u) => {
                                let ghost before = self.map@;
                                self.map[k].unit = Some(u);
                                assert(self.map@ =~= before.update(
                                    k as int,
                                    MapRegion { unit: Some(u), ..before[k as int] },
                                ));
                            },
                            None => {},
                        }
                    }
                },
                None => {},
            }
            i += 1;
        }
        self.dislodged = Vec::new();
        self.next_phase();
        self.retreats = Vec::new();
    }
}

} // verus!
