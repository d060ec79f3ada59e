//! Submitting the orders of a movement phase.

use vstd::prelude::*;
use crate::board::{contains_province, distinct, lemma_region_of, lists, region_of, unit_at};
use crate::types::{
    coast_same, Action, MapRegion, Order, OrderState, Phase, Power, Province, Stpsyr, UnitType,
};

verus! {

/// Whether the entry `border` of a region's fleet border list lets a fleet in
/// that region go to `to`: it names `to`, it starts from the coast the fleet is
/// on, and, for a move, it ends on the coast that `to` asks for.
pub open spec fn sails(region: MapRegion, border: Province, to: Province, is_move: bool) -> bool {
    &&& border.same(to)
    &&& border.from_coast == region.province.coast
    &&& (!is_move || border.coast == to.coast)
}

/// Whether a unit of kind `unit_type` standing in `region` borders on `to`.
pub open spec fn reaches(region: MapRegion, unit_type: UnitType, to: Province, is_move: bool) -> bool {
    match unit_type {
        UnitType::Army => lists(region.army_borders@, to),
        UnitType::Fleet => exists|i: int|
            0 <= i < region.fleet_borders.len() && sails(
                region,
                #[trigger] region.fleet_borders[i],
                to,
                is_move,
            ),
    }
}

/// Whether some order has already been given to the unit in `province`.
pub open spec fn ordered(orders: Seq<Order>, province: Province) -> bool {
    exists|i: int| 0 <= i < orders.len() && (#[trigger] orders[i]).province.same(province)
}

/// Whether the phase is one in which movement orders are given.
pub open spec fn diplomacy(phase: Phase) -> bool {
    phase == Phase::SpringDiplomacy || phase == Phase::FallDiplomacy
}

/// Whether the order that `owner` gives to the unit in `province` is accepted.
///
/// There must be a unit in the province, it must belong to `owner`, and it
/// must not have an order yet. A move must lead to another province; a move by
/// convoy must be made by an army, a move over land must go to a neighbour. A support must be for a neighbour; a support for a move must
/// name three different provinces.
pub open spec fn acceptable(
    map: Seq<MapRegion>,
    orders: Seq<Order>,
    owner: Power,
    province: Province,
    action: Action,
) -> bool {
    match region_of(map, province) {
        None => false,
        Some(k) => {
            let region = map[k as int];
            match region.unit {
                None => false,
                Some(unit) => {
                    &&& unit.owner@ == owner@
                    &&& !ordered(orders, province)
                    &&& orders.len() + 1 < usize::MAX
                    &&& match action {
                        Action::Hold => true,
                        Action::Move { to, convoyed } => {
                            &&& !province.same(to)
                            &&& if convoyed {
                                unit.unit_type == UnitType::Army
                            } else {
                                reaches(region, unit.unit_type, to, true)
                            }
                        },
                        Action::SupportHold { to } => reaches(region, unit.unit_type, to, false),
                        Action::SupportMove { from, to } => {
                            &&& !province.same(from)
                            &&& !province.same(to)
                            &&& !from.same(to)
                            &&& reaches(region, unit.unit_type, to, false)
                        },
                        Action::Convoy { .. } => true,
                    }
                },
            }
        },
    }
}

/// The order as it is stored when it is accepted as the `n`-th of its phase.
pub open spec fn filed(owner: Power, province: Province, action: Action, n: usize) -> Order {
    Order { owner, province, action, resolution: false, state: OrderState::UNRESOLVED, id: n }
}

/// The order list after `owner` has submitted an order for the unit in
/// `province`: the order is added at the end when it is acceptable, and dropped
/// otherwise.
pub open spec fn submitted(
    map: Seq<MapRegion>,
    orders: Seq<Order>,
    owner: Power,
    province: Province,
    action: Action,
) -> Seq<Order> {
    if acceptable(map, orders, owner, province, action) {
        orders.push(filed(owner, province, action, orders.len() as usize))
    } else {
        orders
    }
}

/// Tells whether a unit of kind `unit_type` standing in `region` borders on `to`.
pub fn can_reach(region: &MapRegion, unit_type: UnitType, to: &Province, is_move: bool) -> (r: bool)
    ensures
        r == reaches(*region, unit_type, *to, is_move),
{
    match unit_type {
        UnitType::Army => contains_province(&region.army_borders, to),
        UnitType::Fleet => {
            let mut i: usize = 0;
            while i < region.fleet_borders.len()
                invariant
                    i <= region.fleet_borders.len(),
                    unit_type == UnitType::Fleet,
                    forall|j: int|
                        0 <= j < i ==> !sails(
                            *region,
                            #[trigger] region.fleet_borders[j],
                            *to,
                            is_move,
                        ),
                decreases region.fleet_borders.len() - i,
            {
                let b = &region.fleet_borders[i];
                if b.is(to) && coast_same(b.from_coast, region.province.coast) && (!is_move
                    || coast_same(b.coast, to.coast)) {
                    return true;
                }
                i += 1;
            }
            false
        },
    }
}

impl Stpsyr {
    /// Whether the game is well formed: it is fit for adjudication, no two
    /// regions of the map have the same province, no province is listed twice as
    /// contested, the orders are numbered in the order in which they came, each
    /// is for a different province with a unit in it.
    pub open spec fn sound(&self) -> bool {
        &&& self.ready()
        &&& distinct(self.contested@)
        &&& forall|i: int, j: int|
            0 <= i < j < self.map.len() ==> !(#[trigger] self.map[i]).province.same(
                (#[trigger] self.map[j]).province,
            )
        &&& forall|i: int| 0 <= i < self.orders.len() ==> (#[trigger] self.orders[i]).id == i
        &&& forall|i: int, j: int|
            0 <= i < j < self.orders.len() ==> !(#[trigger] self.orders[i]).province.same(
                (#[trigger] self.orders[j]).province,
            )
        &&& forall|i: int|
            0 <= i < self.orders.len() ==> unit_at(self.map@, (#[trigger] self.orders[i]).province) is Some
    }

    /// Tells whether the unit in `province` has an order already.
    pub fn has_order(&self, province: &Province) -> (r: bool)
        ensures
            r == ordered(self.orders@, *province),
    {
        let mut i: usize = 0;
        while i < self.orders.len()
            invariant
                i <= self.orders.len(),
                forall|j: int| 0 <= j < i ==> !(#[trigger] self.orders[j]).province.same(*province),
            decreases self.orders.len() - i,
        {
            if self.orders[i].province.is(province) {
                return true;
            }
            i += 1;
        }
        false
    }

    /// Tells whether the order that `owner` gives to the unit in `province` is acceptable.
    pub fn accepts(&self, owner: &Power, province: &Province, action: &Action) -> (r: bool)
        ensures
            r == acceptable(self.map@, self.orders@, *owner, *province, *action),
    {
        let k = match self.region_index(province) {
            Some(k) => k,
            None => {
                return false;
            },
        };
        let region = &self.map[k];
        let unit = match &region.unit {
            Some(unit) => unit,
            None => {
                return false;
            },
        };
        if !unit.owner.same(owner) {
            return false;
        }
        if self.has_order(province) {
            return false;
        }
        if self.orders.len() >= usize::MAX - 1 {
            return false;
        }
        match action {
            Action::Hold => true,
            Action::Move { to, convoyed } => {
                if province.is(to) {
                    return false;
                }
                if *convoyed {
                    unit.unit_type == UnitType::Army
                } else {
                    can_reach(region, unit.unit_type, to, true)
                }
            },
            Action::SupportHold { to } => can_reach(region, unit.unit_type, to, false),
            Action::SupportMove { from, to } => {
                if province.is(from) || province.is(to) || from.is(to) {
                    return false;
                }
                can_reach(region, unit.unit_type, to, false)
            },
            Action::Convoy { .. } => true,
        }
    }

    /// Submits an order for the current movement phase. An order that is not
    /// acceptable is dropped without a trace.
    pub fn add_order(&mut self, owner: Power, province: Province, action: Action)
        requires
            old(self).sound(),
            diplomacy(old(self).phase),
        ensures
            final(self).sound(),
            *final(self) == (Stpsyr { orders: final(self).orders, ..*old(self) }),
            final(self).orders@ == submitted(
                old(self).map@,
                old(self).orders@,
                owner,
                province,
                action,
            ),
    {
        if !self.accepts(&owner, &province, &action) {
            return ;
        }
        let id = self.orders.len();
        proof {
            lemma_region_of(self.map@, province);
        }
        self.orders.push(
            Order { owner, province, action, resolution: false, state: OrderState::UNRESOLVED, id },
        );
        proof {
            let n = old(self).orders.len() as int;
            assert forall|i: int, j: int| 0 <= i < j < self.orders.len() implies !(
            #[trigger] self.orders[i]).province.same((#[trigger] self.orders[j]).province) by {
                if j == n {
                    assert(self.orders[i] == old(self).orders[i]);
                } else {
                    assert(self.orders[i] == old(self).orders[i]);
                    assert(self.orders[j] == old(self).orders[j]);
                }
            }
            assert forall|i: int| 0 <= i < self.orders.len() implies region_of(
                self.map@,
                (#[trigger] self.orders[i]).province,
            ) is Some by {
                if i < n {
                    assert(self.orders[i] == old(self).orders[i]);
                }
            }
            assert forall|i: int| 0 <= i < self.orders.len() implies unit_at(
                self.map@,
                (#[trigger] self.orders[i]).province,
            ) is Some by {
                if i < n {
                    assert(self.orders[i] == old(self).orders[i]);
                }
            }
            assert forall|i: int| 0 <= i < self.orders.len() implies (#[trigger] self.orders[i]).id
                == i by {
                if i < n {
                    assert(self.orders[i] == old(self).orders[i]);
                }
            }
        }
    }
}

} // verus!
