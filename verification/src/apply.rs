//! Carrying out the resolved orders of a movement phase on the board.

use vstd::prelude::*;
use crate::board::{contains_province, distinct, lists, region_of, unit_at};
use crate::model::destination;
use crate::types::{clone_unit, Action, MapRegion, Order, Province, Stpsyr, Unit};

verus! {

/// Whether an order is a move that succeeds.
pub open spec fn succeeded(o: Order) -> bool {
    o.action is Move && o.resolution
}

/// Whether every move that succeeds starts from and leads to a province on
/// the map.
pub open spec fn lands(map: Seq<MapRegion>, orders: Seq<Order>) -> bool {
    forall|i: int|
        0 <= i < orders.len() && succeeded(#[trigger] orders[i]) ==> region_of(
            map,
            orders[i].province,
        ) is Some && region_of(map, destination(orders[i])) is Some
}

/// Whether order `o` is a successful move into region `k`.
pub open spec fn arrives(map: Seq<MapRegion>, o: Order, k: int) -> bool {
    succeeded(o) && region_of(map, destination(o)) == Some(k as usize)
}

/// Whether order `o` is a successful move out of region `k`.
pub open spec fn leaves(map: Seq<MapRegion>, o: Order, k: int) -> bool {
    succeeded(o) && o.province.same(map[k].province)
}

/// Whether the unit of region `k` moves away.
pub open spec fn departs(map: Seq<MapRegion>, orders: Seq<Order>, k: int) -> bool {
    exists|i: int| 0 <= i < orders.len() && leaves(map, #[trigger] orders[i], k)
}

/// The successful moves into region `k` among the first `n` orders, in
/// submission order.
pub open spec fn arrivals_upto(map: Seq<MapRegion>, orders: Seq<Order>, k: int, n: int) -> Seq<
    usize,
>
    decreases n,
{
    if n <= 0 {
        Seq::empty()
    } else {
        let before = arrivals_upto(map, orders, k, n - 1);
        if arrives(map, orders[n - 1], k) {
            before.push((n - 1) as usize)
        } else {
            before
        }
    }
}

/// The successful moves into region `k`, in submission order.
pub open spec fn arrivals(map: Seq<MapRegion>, orders: Seq<Order>, k: int) -> Seq<usize> {
    arrivals_upto(map, orders, k, orders.len() as int)
}

/// The unit in region `k` after the moves: the unit of the last move into it;
/// none if no unit moves in and its own unit moves away; otherwise the unit
/// that was there.
pub open spec fn unit_after(map: Seq<MapRegion>, orders: Seq<Order>, k: int) -> Option<Unit> {
    let a = arrivals(map, orders, k);
    if a.len() > 0 {
        unit_at(map, orders[a.last() as int].province)
    } else if departs(map, orders, k) {
        None
    } else {
        map[k].unit
    }
}

/// The coast of a region with coasts after the arrivals `a[j..]`, when it was
/// `coast` before them: each arrival that names a coast sets it.
pub open spec fn coast_from(orders: Seq<Order>, a: Seq<usize>, j: int, coast: Option<char>) -> Option<
    char,
>
    decreases a.len() - j,
{
    if j < 0 || j >= a.len() {
        coast
    } else {
        let named = destination(orders[a[j] as int]).coast;
        coast_from(
            orders,
            a,
            j + 1,
            if named is Some && coast is Some {
                named
            } else {
                coast
            },
        )
    }
}

/// The coast that region `k` refers to after the moves.
pub open spec fn coast_after(map: Seq<MapRegion>, orders: Seq<Order>, k: int) -> Option<char> {
    coast_from(orders, arrivals(map, orders, k), 0, map[k].province.coast)
}

/// The unit that is dislodged from region `k`, with the province as the
/// dislodging move names it: the unit that the first move into `k` finds there,
/// unless that unit moves away itself.
pub open spec fn displaced_from(map: Seq<MapRegion>, orders: Seq<Order>, k: int) -> Option<
    (Province, Unit),
> {
    let a = arrivals(map, orders, k);
    if departs(map, orders, k) || a.len() == 0 {
        None
    } else if map[k].unit is Some {
        Some((destination(orders[a[0] as int]), map[k].unit->0))
    } else if a.len() >= 2 && unit_at(map, orders[a[0] as int].province) is Some {
        Some((destination(orders[a[1] as int]), unit_at(map, orders[a[0] as int].province)->0))
    } else {
        None
    }
}

/// The units dislodged from the first `n` regions, in map order.
pub open spec fn displaced_upto(map: Seq<MapRegion>, orders: Seq<Order>, n: int) -> Seq<
    (Province, Unit),
>
    decreases n,
{
    if n <= 0 {
        Seq::empty()
    } else {
        let before = displaced_upto(map, orders, n - 1);
        match displaced_from(map, orders, n - 1) {
            Some(d) => before.push(d),
            None => before,
        }
    }
}

/// The units dislodged by the moves, in map order.
pub open spec fn displaced(map: Seq<MapRegion>, orders: Seq<Order>) -> Seq<(Province, Unit)> {
    displaced_upto(map, orders, map.len() as int)
}

/// Region `k` after the moves.
pub open spec fn region_after(map: Seq<MapRegion>, orders: Seq<Order>, k: int) -> MapRegion {
    MapRegion {
        unit: unit_after(map, orders, k),
        province: Province { coast: coast_after(map, orders, k), ..map[k].province },
        ..map[k]
    }
}

/// The board after the moves.
pub open spec fn board_after(map: Seq<MapRegion>, orders: Seq<Order>) -> Seq<MapRegion> {
    Seq::new(map.len(), |k: int| region_after(map, orders, k))
}

/// The contested provinces after the first `n` orders: those that were
/// contested before, followed by the destinations of the moves that fail, each
/// province once.
pub open spec fn bounced_upto(orders: Seq<Order>, contested: Seq<Province>, n: int) -> Seq<
    Province,
>
    decreases n,
{
    if n <= 0 {
        contested
    } else {
        let before = bounced_upto(orders, contested, n - 1);
        let o = orders[n - 1];
        if o.action is Move && !o.resolution && !lists(before, destination(o)) {
            before.push(destination(o))
        } else {
            before
        }
    }
}

/// Noting contested provinces never lists a province twice.
pub proof fn lemma_bounced_distinct(orders: Seq<Order>, contested: Seq<Province>, n: int)
    requires
        distinct(contested),
    ensures
        distinct(bounced_upto(orders, contested, n)),
    decreases n,
{
    if n > 0 {
        lemma_bounced_distinct(orders, contested, n - 1);
        let before = bounced_upto(orders, contested, n - 1);
        let now = bounced_upto(orders, contested, n);
        assert forall|i: int, j: int| 0 <= i < j < now.len() implies !(#[trigger] now[i]).same(
            #[trigger] now[j],
        ) by {
            if j < before.len() {
                assert(now[i] == before[i] && now[j] == before[j]);
            } else {
                assert(now[i] == before[i]);
                if now[i].same(now[j]) {
                    assert(before[i].same(destination(orders[n - 1])));
                }
            }
        }
    }
}

/// The contested provinces after the phase.
pub open spec fn bounced(orders: Seq<Order>, contested: Seq<Province>) -> Seq<Province> {
    bounced_upto(orders, contested, orders.len() as int)
}

impl Stpsyr {
    /// Tells whether order `i` is a successful move.
    fn is_success(&self, i: usize) -> (r: bool)
        requires
            i < self.orders.len(),
        ensures
            r == succeeded(self.orders[i as int]),
    {
        match &self.orders[i].action {
            Action::Move { .. } => self.orders[i].resolution,
            _ => false,
        }
    }

    /// The province that order `i` names as its destination.
    fn goal(&self, i: usize) -> (r: Province)
        requires
            i < self.orders.len(),
        ensures
            r == destination(self.orders[i as int]),
    {
        match &self.orders[i].action {
            Action::Move { to, .. } => to.clone(),
            _ => self.orders[i].province.clone(),
        }
    }

    /// Tells whether every move that succeeds starts from and leads to a
    /// province on the map.
    pub fn all_land(&self) -> (r: bool)
        ensures
            r == lands(self.map@, self.orders@),
    {
        let mut i: usize = 0;
        while i < self.orders.len()
            invariant
                i <= self.orders.len(),
                forall|j: int|
                    0 <= j < i && succeeded(#[trigger] self.orders[j]) ==> region_of(
                        self.map@,
                        self.orders[j].province,
                    ) is Some && region_of(self.map@, destination(self.orders[j])) is Some,
            decreases self.orders.len() - i,
        {
            if self.is_success(i) {
                if self.region_index(&self.orders[i].province).is_none() {
                    return false;
                }
                let to = self.goal(i);
                if self.region_index(&to).is_none() {
                    return false;
                }
            }
            i += 1;
        }
        true
    }

    /// Lists the successful moves into region `k`.
    pub fn arrivals_at(&self, k: usize) -> (r: Vec<usize>)
        ensures
            r@ == arrivals(self.map@, self.orders@, k as int),
            forall|j: int| 0 <= j < r.len() ==> (#[trigger] r[j]) < self.orders.len(),
    {
        let mut out: Vec<usize> = Vec::new();
        let mut i: usize = 0;
        while i < self.orders.len()
            invariant
                i <= self.orders.len(),
                out@ == arrivals_upto(self.map@, self.orders@, k as int, i as int),
                forall|j: int| 0 <= j < out.len() ==> (#[trigger] out[j]) < self.orders.len(),
            decreases self.orders.len() - i,
        {
            if self.is_success(i) {
                let to = self.goal(i);
                match self.region_index(&to) {
                    Some(t) => {
                        if t == k {
                            out.push(i);
                        }
                    },
                    None => {},
                }
            }
            i += 1;
        }
        out
    }

    /// Tells whether the unit of region `k` moves away.
    pub fn departs_from(&self, k: usize) -> (r: bool)
        requires
            k < self.map.len(),
        ensures
            r == departs(self.map@, self.orders@, k as int),
    {
        let mut i: usize = 0;
        while i < self.orders.len()
            invariant
                i <= self.orders.len(),
                k < self.map.len(),
                forall|j: int| 0 <= j < i ==> !leaves(self.map@, #[trigger] self.orders[j], k as int),
            decreases self.orders.len() - i,
        {
            if self.is_success(i) && self.orders[i].province.is(&self.map[k].province) {
                return true;
            }
            i += 1;
        }
        false
    }

    /// The coast that region `k` refers to once the moves `a` have arrived.
    fn landing_coast(&self, k: usize, a: &Vec<usize>) -> (r: Option<char>)
        requires
            k < self.map.len(),
            forall|j: int| 0 <= j < a.len() ==> (#[trigger] a[j]) < self.orders.len(),
        ensures
            r == coast_from(self.orders@, a@, 0, self.map[k as int].province.coast),
    {
        let mut coast = self.map[k].province.coast;
        let mut j: usize = 0;
        while j < a.len()
            invariant
                j <= a.len(),
                forall|i: int| 0 <= i < a.len() ==> (#[trigger] a[i]) < self.orders.len(),
                coast_from(self.orders@, a@, j as int, coast) == coast_from(
                    self.orders@,
                    a@,
                    0,
                    self.map[k as int].province.coast,
                ),
            decreases a.len() - j,
        {
            let named = self.goal(a[j]).coast;
            if named.is_some() && coast.is_some() {
                coast = named;
            }
            j += 1;
        }
        coast
    }

    /// The unit dislodged from region `k` by the moves `a` into it.
    fn displaced_at(&self, k: usize, a: &Vec<usize>) -> (r: Option<(Province, Unit)>)
        requires
            k < self.map.len(),
            a@ == arrivals(self.map@, self.orders@, k as int),
            forall|j: int| 0 <= j < a.len() ==> (#[trigger] a[j]) < self.orders.len(),
        ensures
            r == displaced_from(self.map@, self.orders@, k as int),
    {
        if self.departs_from(k) || a.len() == 0 {
            return None;
        }
        match &self.map[k].unit {
            Some(u) => Some((self.goal(a[0]), u.clone())),
            None => {
                if a.len() >= 2 {
                    match self.get_unit(&self.orders[a[0]].province) {
                        Some(u) => Some((self.goal(a[1]), u)),
                        None => None,
                    }
                } else {
                    None
                }
            },
        }
    }

    /// Notes the destinations of the failed moves as contested.
    fn note_contested(&mut self)
        ensures
            final(self).contested@ == bounced(old(self).orders@, old(self).contested@),
            *final(self) == (Stpsyr { contested: final(self).contested, ..*old(self) }),
    {
        let mut i: usize = 0;
        while i < self.orders.len()
            invariant
                i <= self.orders.len(),
                *self == (Stpsyr { contested: self.contested, ..*old(self) }),
                self.contested@ == bounced_upto(old(self).orders@, old(self).contested@, i as int),
            decreases self.orders.len() - i,
        {
            let failed = match &self.orders[i].action {
                Action::Move { .. } => !self.orders[i].resolution,
                _ => false,
            };
            if failed {
                let to = self.goal(i);
                if !contains_province(&self.contested, &to) {
                    self.contested.push(to);
                }
            }
            i += 1;
        }
    }

    /// Moves the units whose moves succeeded.
    ///
    /// Every region gets the unit of the move into it, loses its unit if that
    /// moves away and no other comes, and takes the coast that an arriving fleet
    /// names. The units that are dislodged are added to the dislodged list, and
    /// the destinations of the moves that failed to the contested provinces.
    pub fn apply_resolved(&mut self)
        requires
            lands(old(self).map@, old(self).orders@),
        ensures
            final(self).map@ == board_after(old(self).map@, old(self).orders@),
            final(self).dislodged@ == old(self).dislodged@ + displaced(
                old(self).map@,
                old(self).orders@,
            ),
            final(self).contested@ == bounced(old(self).orders@, old(self).contested@),
            distinct(old(self).contested@) ==> distinct(final(self).contested@),
            *final(self) == (Stpsyr {
                map: final(self).map,
                dislodged: final(self).dislodged,
                contested: final(self).contested,
                ..*old(self)
            }),
    {
        proof {
            if distinct(self.contested@) {
                lemma_bounced_distinct(self.orders@, self.contested@, self.orders.len() as int);
            }
        }
        self.note_contested();
        let n = self.map.len();
        let mut units: Vec<Option<Unit>> = Vec::new();
        let mut coasts: Vec<Option<char>> = Vec::new();
        let mut k: usize = 0;
        while k < n
            invariant
                k <= n,
                n == self.map.len(),
                *self == (Stpsyr {
                    dislodged: self.dislodged,
                    contested: self.contested,
                    ..*old(self)
                }),
                self.contested@ == bounced(old(self).orders@, old(self).contested@),
                units.len() == k,
                coasts.len() == k,
                forall|j: int|
                    0 <= j < k ==> #[trigger] units[j] == unit_after(self.map@, self.orders@, j),
                forall|j: int|
                    0 <= j < k ==> #[trigger] coasts[j] == coast_after(self.map@, self.orders@, j),
                self.dislodged@ == old(self).dislodged@ + displaced_upto(
                    self.map@,
                    self.orders@,
                    k as int,
                ),
            decreases n - k,
        {
            let a = self.arrivals_at(k);
            let unit = if a.len() > 0 {
                self.get_unit(&self.orders[a[a.len() - 1]].province)
            } else if self.departs_from(k) {
                None
            } else {
                clone_unit(&self.map[k].unit)
            };
            let coast = self.landing_coast(k, &a);
            match self.displaced_at(k, &a) {
                Some(d) => {
                    self.dislodged.push(d);
                },
                None => {},
            }
            proof {
                let sofar = displaced_upto(self.map@, self.orders@, k as int);
                match displaced_from(self.map@, self.orders@, k as int) {
                    Some(d) => {
                        assert(self.dislodged@ =~= old(self).dislodged@ + sofar.push(d));
                    },
                    None => {},
                }
            }
            units.push(unit);
            coasts.push(coast);
            k += 1;
        }
        let ghost was = self.map@;
        let mut k: usize = 0;
        while k < n
            invariant
                k <= n,
                n == self.map.len(),
                n == was.len(),
                units.len() == n,
                coasts.len() == n,
                *self == (Stpsyr {
                    map: self.map,
                    dislodged: self.dislodged,
                    contested: self.contested,
                    ..*old(self)
                }),
                was == old(self).map@,
                self.contested@ == bounced(old(self).orders@, old(self).contested@),
                self.dislodged@ == old(self).dislodged@ + displaced(was, old(self).orders@),
                forall|j: int|
                    0 <= j < n ==> #[trigger] units[j] == unit_after(was, self.orders@, j),
                forall|j: int|
                    0 <= j < n ==> #[trigger] coasts[j] == coast_after(was, self.orders@, j),
                forall|j: int|
                    0 <= j < k ==> #[trigger] self.map[j] == region_after(was, self.orders@, j),
                forall|j: int| k <= j < n ==> #[trigger] self.map[j] == was[j],
            decreases n - k,
        {
            self.map[k].unit = clone_unit(&units[k]);
            self.map[k].province.coast = coasts[k];
            k += 1;
        }
        assert(self.map@ =~= board_after(was, self.orders@));
    }
}

} // verus!
