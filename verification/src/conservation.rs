//! Moving units neither makes nor loses any.

use vstd::prelude::*;
use crate::apply::{
    arrivals, arrivals_upto, arrives, board_after, departs, displaced, displaced_from,
    displaced_upto, lands, leaves, succeeded, unit_after,
};
use crate::board::{lemma_region_from, region_from, region_of, unit_at};
use crate::adjudicate::depth_limit;
use crate::invariants::{fit, lemma_resolve};
use crate::model::{destination, resolve, AdjudicationError, Progress};
use crate::phase::owners_updated;
use crate::progress::{fixed_part, same_orders};
use crate::turn::{adjudicated, resolve_from, resolved_all};
use crate::types::{MapRegion, Order, OrderState, Phase, Province, Stpsyr, Unit};

verus! {

/// How many of the first `m` regions hold a unit.
pub open spec fn units_upto(map: Seq<MapRegion>, m: int) -> nat
    decreases m,
{
    if m <= 0 {
        0
    } else {
        units_upto(map, m - 1) + if map[m - 1].unit is Some {
            1nat
        } else {
            0nat
        }
    }
}

/// How many units stand on the board.
pub open spec fn units(map: Seq<MapRegion>) -> nat {
    units_upto(map, map.len() as int)
}

/// Whether at most one move succeeds into each region.
pub open spec fn one_arrival_each(map: Seq<MapRegion>, orders: Seq<Order>) -> bool {
    forall|k: int| 0 <= k < map.len() ==> (#[trigger] arrivals(map, orders, k)).len() <= 1
}

/// What the proof needs of a well-formed game: regions have different names,
/// orders are for different provinces with a unit in each, and the moves that
/// succeed lead to provinces on the map.
pub open spec fn tidy(map: Seq<MapRegion>, orders: Seq<Order>) -> bool {
    &&& map.len() <= usize::MAX
    &&& forall|i: int, j: int|
        0 <= i < j < map.len() ==> !(#[trigger] map[i]).province.same((#[trigger] map[j]).province)
    &&& forall|i: int, j: int|
        0 <= i < j < orders.len() ==> !(#[trigger] orders[i]).province.same(
            (#[trigger] orders[j]).province,
        )
    &&& forall|i: int| 0 <= i < orders.len() ==> unit_at(map, (#[trigger] orders[i]).province) is Some
    &&& forall|i: int|
        0 <= i < orders.len() && succeeded(#[trigger] orders[i]) ==> region_of(
            map,
            destination(orders[i]),
        ) is Some
}

/// How many of the first `n` orders are successful moves.
spec fn successes_upto(orders: Seq<Order>, n: int) -> nat
    decreases n,
{
    if n <= 0 {
        0
    } else {
        successes_upto(orders, n - 1) + if succeeded(orders[n - 1]) {
            1nat
        } else {
            0nat
        }
    }
}

/// Whether one of the first `n` orders is a successful move out of region `k`.
spec fn departs_upto(map: Seq<MapRegion>, orders: Seq<Order>, k: int, n: int) -> bool {
    exists|i: int| 0 <= i < n && leaves(map, #[trigger] orders[i], k)
}

/// The number of successful moves among the first `n` orders into the first
/// `m` regions.
spec fn sum_arrivals(map: Seq<MapRegion>, orders: Seq<Order>, n: int, m: int) -> nat
    decreases m,
{
    if m <= 0 {
        0
    } else {
        sum_arrivals(map, orders, n, m - 1) + arrivals_upto(map, orders, m - 1, n).len()
    }
}

/// The number of the first `m` regions that one of the first `n` orders leaves.
spec fn sum_departs(map: Seq<MapRegion>, orders: Seq<Order>, n: int, m: int) -> nat
    decreases m,
{
    if m <= 0 {
        0
    } else {
        sum_departs(map, orders, n, m - 1) + if departs_upto(map, orders, m - 1, n) {
            1nat
        } else {
            0nat
        }
    }
}

/// The region of a province is the only region with that name.
proof fn lemma_only_region(map: Seq<MapRegion>, orders: Seq<Order>, i: int, k: int)
    requires
        tidy(map, orders),
        0 <= i < orders.len(),
        0 <= k < map.len(),
    ensures
        region_of(map, orders[i].province) is Some,
        region_of(map, orders[i].province)->0 < map.len(),
        map[region_of(map, orders[i].province)->0 as int].unit is Some,
        orders[i].province.same(map[k].province) <==> region_of(map, orders[i].province) == Some(
            k as usize,
        ),
{
    lemma_region_from(map, orders[i].province, 0);
    let f = region_from(map, orders[i].province, 0);
    assert(map[f].province.same(orders[i].province));
    if orders[i].province.same(map[k].province) {
        if f < k {
            assert(!map[f].province.same(map[k].province));
        } else if k < f {
            assert(!map[k].province.same(map[f].province));
        }
    }
}

/// No order before the `n`-th leaves the region that the `n`-th leaves.
proof fn lemma_first_to_leave(map: Seq<MapRegion>, orders: Seq<Order>, n: int, k: int)
    requires
        tidy(map, orders),
        0 <= n < orders.len(),
        0 <= k < map.len(),
        orders[n].province.same(map[k].province),
    ensures
        !departs_upto(map, orders, k, n),
{
    if departs_upto(map, orders, k, n) {
        let i = choose|i: int| 0 <= i < n && leaves(map, #[trigger] orders[i], k);
        assert(orders[i].province.same(orders[n].province));
    }
}

/// One more order adds at most itself to the moves into the first `m` regions.
proof fn lemma_arrivals_step(map: Seq<MapRegion>, orders: Seq<Order>, n: int, m: int)
    requires
        tidy(map, orders),
        0 < n <= orders.len(),
        0 <= m <= map.len(),
    ensures
        sum_arrivals(map, orders, n, m) == sum_arrivals(map, orders, n - 1, m) + if succeeded(
            orders[n - 1],
        ) && region_of(map, destination(orders[n - 1]))->0 < m {
            1nat
        } else {
            0nat
        },
    decreases m,
{
    if m > 0 {
        lemma_arrivals_step(map, orders, n, m - 1);
        let t = region_of(map, destination(orders[n - 1]));
        if succeeded(orders[n - 1]) {
            assert(t is Some);
            assert(arrives(map, orders[n - 1], m - 1) <==> t->0 == m - 1);
        }
    }
}

/// One more order adds at most its own source to the regions left among the
/// first `m`.
proof fn lemma_departs_step(map: Seq<MapRegion>, orders: Seq<Order>, n: int, m: int)
    requires
        tidy(map, orders),
        0 < n <= orders.len(),
        0 <= m <= map.len(),
    ensures
        sum_departs(map, orders, n, m) == sum_departs(map, orders, n - 1, m) + if succeeded(
            orders[n - 1],
        ) && region_of(map, orders[n - 1].province)->0 < m {
            1nat
        } else {
            0nat
        },
    decreases m,
{
    if m > 0 {
        lemma_departs_step(map, orders, n, m - 1);
        let k = m - 1;
        lemma_only_region(map, orders, n - 1, k);
        let f = region_of(map, orders[n - 1].province)->0;
        if succeeded(orders[n - 1]) && f == k {
            lemma_first_to_leave(map, orders, n - 1, k);
            assert(leaves(map, orders[n - 1], k));
            assert(departs_upto(map, orders, k, n));
        } else {
            if departs_upto(map, orders, k, n) {
                let i = choose|i: int| 0 <= i < n && leaves(map, #[trigger] orders[i], k);
                assert(i != n - 1);
                assert(departs_upto(map, orders, k, n - 1));
            }
            if departs_upto(map, orders, k, n - 1) {
                let i = choose|i: int| 0 <= i < n - 1 && leaves(map, #[trigger] orders[i], k);
                assert(departs_upto(map, orders, k, n));
            }
        }
    }
}

/// No move arrives and no region is left while no order has been looked at.
proof fn lemma_nothing_yet(map: Seq<MapRegion>, orders: Seq<Order>, m: int)
    requires
        0 <= m,
    ensures
        sum_arrivals(map, orders, 0, m) == 0,
        sum_departs(map, orders, 0, m) == 0,
    decreases m,
{
    if m > 0 {
        lemma_nothing_yet(map, orders, m - 1);
    }
}

/// As many regions are left as moves succeed, and as many moves arrive.
proof fn lemma_moves_balance(map: Seq<MapRegion>, orders: Seq<Order>, n: int)
    requires
        tidy(map, orders),
        0 <= n <= orders.len(),
    ensures
        sum_arrivals(map, orders, n, map.len() as int) == successes_upto(orders, n),
        sum_departs(map, orders, n, map.len() as int) == successes_upto(orders, n),
    decreases n,
{
    if n == 0 {
        lemma_nothing_yet(map, orders, map.len() as int);
    } else {
        lemma_moves_balance(map, orders, n - 1);
        lemma_arrivals_step(map, orders, n, map.len() as int);
        lemma_departs_step(map, orders, n, map.len() as int);
        if map.len() > 0 {
            lemma_only_region(map, orders, n - 1, 0);
        } else {
            assert(unit_at(map, orders[n - 1].province) is Some);
        }
        if succeeded(orders[n - 1]) {
            lemma_region_from(map, destination(orders[n - 1]), 0);
        }
    }
}

/// The moves into a region are orders of the list, and each of them is a
/// successful move into that region.
proof fn lemma_arrivals(map: Seq<MapRegion>, orders: Seq<Order>, k: int, n: int)
    requires
        0 <= n <= orders.len() <= usize::MAX,
    ensures
        forall|j: int|
            0 <= j < arrivals_upto(map, orders, k, n).len() ==> (#[trigger] arrivals_upto(
                map,
                orders,
                k,
                n,
            )[j]) < n && arrives(map, orders[arrivals_upto(map, orders, k, n)[j] as int], k),
    decreases n,
{
    if n > 0 {
        lemma_arrivals(map, orders, k, n - 1);
        let before = arrivals_upto(map, orders, k, n - 1);
        let now = arrivals_upto(map, orders, k, n);
        assert forall|j: int| 0 <= j < now.len() implies (#[trigger] now[j]) < n && arrives(
            map,
            orders[now[j] as int],
            k,
        ) by {
            if j < before.len() {
                assert(now[j] == before[j]);
            }
        }
    }
}

/// In one region: the unit after the moves and the unit dislodged, together
/// with the unit that left, are the unit that came and the unit that was there.
proof fn lemma_region_balance(map: Seq<MapRegion>, orders: Seq<Order>, k: int)
    requires
        tidy(map, orders),
        orders.len() <= usize::MAX,
        one_arrival_each(map, orders),
        0 <= k < map.len(),
    ensures
        (if unit_after(map, orders, k) is Some {
            1nat
        } else {
            0nat
        }) + (if displaced_from(map, orders, k) is Some {
            1nat
        } else {
            0nat
        }) + (if departs(map, orders, k) {
            1nat
        } else {
            0nat
        }) == arrivals(map, orders, k).len() + (if map[k].unit is Some {
            1nat
        } else {
            0nat
        }),
{
    let a = arrivals(map, orders, k);
    lemma_arrivals(map, orders, k, orders.len() as int);
    assert(a.len() <= 1);
    if departs(map, orders, k) {
        let i = choose|i: int| 0 <= i < orders.len() && leaves(map, #[trigger] orders[i], k);
        lemma_only_region(map, orders, i, k);
    }
    if a.len() == 1 {
        let i = a[0] as int;
        assert(a.last() == a[0]);
        lemma_only_region(map, orders, i, k);
    }
}

/// The balance of all regions up to the `m`-th.
proof fn lemma_board_balance(map: Seq<MapRegion>, orders: Seq<Order>, m: int)
    requires
        tidy(map, orders),
        orders.len() <= usize::MAX,
        one_arrival_each(map, orders),
        0 <= m <= map.len(),
    ensures
        units_upto(board_after(map, orders), m) + displaced_upto(map, orders, m).len()
            + sum_departs(map, orders, orders.len() as int, m) == sum_arrivals(
            map,
            orders,
            orders.len() as int,
            m,
        ) + units_upto(map, m),
    decreases m,
{
    if m > 0 {
        lemma_board_balance(map, orders, m - 1);
        lemma_region_balance(map, orders, m - 1);
        assert(board_after(map, orders)[m - 1].unit == unit_after(map, orders, m - 1));
        assert(departs(map, orders, m - 1) == departs_upto(
            map,
            orders,
            m - 1,
            orders.len() as int,
        ));
    }
}

/// Moving the units of a tidy order list, of which no two moves succeed into
/// the same province, conserves the units.
pub proof fn lemma_units_are_conserved(map: Seq<MapRegion>, orders: Seq<Order>)
    requires
        tidy(map, orders),
        orders.len() <= usize::MAX,
        one_arrival_each(map, orders),
    ensures
        units(board_after(map, orders)) + displaced(map, orders).len() == units(map),
{
    lemma_board_balance(map, orders, map.len() as int);
    lemma_moves_balance(map, orders, orders.len() as int);
}

/// Conservation of units: when the moves that succeed lead to provinces on the
/// map and no two of them into the same province, the units on the board after
/// the moves and the units newly dislodged are together as many as the units on
/// the board before.
pub proof fn law_units_are_conserved(game: Stpsyr)
    requires
        game.sound(),
        lands(game.map@, game.orders@),
        one_arrival_each(game.map@, game.orders@),
    ensures
        units(board_after(game.map@, game.orders@)) + displaced(game.map@, game.orders@).len()
            == units(game.map@),
{
    let map = game.map@;
    let orders = game.orders@;
    assert(map.len() == game.map.len());
    assert(orders.len() == game.orders.len());
    assert(tidy(map, orders));
    lemma_units_are_conserved(map, orders);
}

/// The change of ownership at the end of a phase moves no unit.
proof fn lemma_owners_keep_units(map: Seq<MapRegion>, phase: Phase, m: int)
    requires
        0 <= m <= map.len(),
    ensures
        units_upto(owners_updated(map, phase), m) == units_upto(map, m),
    decreases m,
{
    if m > 0 {
        lemma_owners_keep_units(map, phase, m - 1);
    }
}

/// Resolving the orders of a phase one after the other leaves what they ask
/// for as it is.
proof fn lemma_resolve_from_keeps(map: Seq<MapRegion>, s: Progress, i: int, n: int, d: nat)
    requires
        fit(s),
        0 <= i,
        n == s.orders.len(),
    ensures
        resolve_from(map, s, i, n, d) is Ok ==> same_orders(
            resolve_from(map, s, i, n, d)->Ok_0.orders,
            s.orders,
        ),
    decreases n - i,
{
    if i < n {
        lemma_resolve(map, s, i, d);
        match resolve(map, s, i, d) {
            Err(_) => {},
            Ok((s1, _)) => {
                if s1.orders[i].state == OrderState::RESOLVED {
                    lemma_resolve_from_keeps(map, s1, i + 1, n, d);
                }
            },
        }
    }
}

/// Conservation of units over a whole movement phase: when the phase ends
/// without an error and no two moves have succeeded into the same province,
/// the units on the board afterwards and the units newly dislodged are together
/// as many as the units on the board before.
pub proof fn law_phase_conserves_units(
    before: Stpsyr,
    after: Stpsyr,
    r: Result<Seq<(Province, Unit)>, AdjudicationError>,
)
    requires
        before.sound(),
        after.orders_applied(before, r),
        r is Ok,
        one_arrival_each(before.map@, adjudicated(before.map@, before.progress())->Ok_0.orders),
    ensures
        units(after.map@) + (after.dislodged@.len() - before.dislodged@.len()) == units(
            before.map@,
        ),
        after.dislodged@.len() >= before.dislodged@.len(),
{
    let map = before.map@;
    let s = before.progress();
    let done = adjudicated(map, s)->Ok_0;
    assert(done == resolved_all(map, s)->Ok_0);
    assert(lands(map, done.orders));
    assert(map.len() == before.map.len());
    assert(s.orders.len() == before.orders.len());
    assert(fit(s));
    lemma_resolve_from_keeps(map, s, 0, s.orders.len() as int, depth_limit(s.orders.len()));
    assert(same_orders(done.orders, s.orders));
    assert(tidy(map, done.orders)) by {
        assert forall|i: int, j: int| 0 <= i < j < done.orders.len() implies !(
        #[trigger] done.orders[i]).province.same((#[trigger] done.orders[j]).province) by {
            assert(fixed_part(done.orders[i]) == fixed_part(s.orders[i]));
            assert(fixed_part(done.orders[j]) == fixed_part(s.orders[j]));
        }
        assert forall|i: int| 0 <= i < done.orders.len() implies unit_at(
            map,
            (#[trigger] done.orders[i]).province,
        ) is Some by {
            assert(fixed_part(done.orders[i]) == fixed_part(s.orders[i]));
        }
    }
    lemma_units_are_conserved(map, done.orders);
    let moved = board_after(map, done.orders);
    lemma_owners_keep_units(moved, before.phase, moved.len() as int);
}

} // verus!
