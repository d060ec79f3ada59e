//! Laws of adjudication: what holds of every game.

use vstd::prelude::*;
use crate::apply::{arrivals, board_after, leaves, succeeded, unit_after};
use crate::board::unit_at;
use crate::invariants::{fit, lemma_chosen_within, lemma_convoy_paths, within};
use crate::model::{
    adjudicate, attack_strength, attacked_power, by_convoy, convoy_paths, count_successes, cut,
    defend_strength, destination, hold_strength, one_plus, outmatches, resolve,
    AdjudicationError, Progress, Step,
};
use crate::progress::{fixed_part, same_orders};
use crate::select::{chosen, chosen_upto, first_chosen, lemma_chosen_upto, picks, Pick};
use crate::turn::{all_resolved, resolved_all};
use crate::types::{Action, MapRegion, Order, OrderState, Power, Province, Stpsyr, Unit};

verus! {

/// The strength that opposes the move `id` at its destination, computed in the
/// state `s1` that the calculation of its attack strength has left: the defend
/// strength of a unit that comes the other way over land, otherwise the hold
/// strength of the destination.
pub open spec fn counter_strength(map: Seq<MapRegion>, s1: Progress, o: Order, d: nat) -> Step<nat> {
    if !by_convoy(o) && chosen(
        s1.orders,
        Pick::HeadOn { attacker: o.province, target: destination(o) },
    ).len() > 0 {
        defend_strength(map, s1, destination(o), d)
    } else {
        hold_strength(map, s1, destination(o), d)
    }
}

/// Ties fail: a move whose attack strength is not greater than the strength
/// that opposes it at its destination does not succeed.
pub proof fn law_ties_fail(map: Seq<MapRegion>, s: Progress, id: int, d: nat)
    requires
        0 <= id < s.orders.len(),
        s.orders[id].action is Move,
        attack_strength(map, s, s.orders[id].province, d) is Ok,
        counter_strength(
            map,
            attack_strength(map, s, s.orders[id].province, d)->Ok_0.0,
            s.orders[id],
            d,
        ) is Ok,
        attack_strength(map, s, s.orders[id].province, d)->Ok_0.1 <= counter_strength(
            map,
            attack_strength(map, s, s.orders[id].province, d)->Ok_0.0,
            s.orders[id],
            d,
        )->Ok_0.1,
    ensures
        adjudicate(map, s, id, d) is Ok,
        !adjudicate(map, s, id, d)->Ok_0.1,
{
}

/// Whether the convoyed move `m` has a route that holds, and the state after
/// finding out; a move over land always has a way.
pub open spec fn way(map: Seq<MapRegion>, s: Progress, m: int, d: nat) -> Step<bool> {
    if by_convoy(s.orders[m]) {
        match convoy_paths(map, s, m, d) {
            Err(e) => Err(e),
            Ok((s1, routes)) => Ok((s1, routes.len() > 0)),
        }
    } else {
        Ok((s, true))
    }
}

/// Whether the unit at the destination of the move `o` of the unit in `p`
/// moves away, and the state after finding out. Only a move that is not
/// head-to-head with `o` counts.
pub open spec fn gives_way(
    map: Seq<MapRegion>,
    s1: Progress,
    p: Province,
    o: Order,
    d: nat,
) -> Step<bool> {
    match first_chosen(
        s1.orders,
        Pick::Leaves { at: destination(o), attacker: p, convoyed: by_convoy(o) },
    ) {
        Some(l) => resolve(map, s1, l as int, d),
        None => Ok((s1, false)),
    }
}

/// No self-dislodgement by direct attack: when the unit at the destination of
/// a move stays and belongs to the mover's power, the attack strength of the
/// move is 0.
pub proof fn law_no_attack_on_own_unit(
    map: Seq<MapRegion>,
    s: Progress,
    p: Province,
    d: nat,
)
    requires
        first_chosen(s.orders, Pick::MovesFrom(p)) is Some,
        way(map, s, first_chosen(s.orders, Pick::MovesFrom(p))->0 as int, d) is Ok,
        ({
            let m = first_chosen(s.orders, Pick::MovesFrom(p))->0 as int;
            let s1 = way(map, s, m, d)->Ok_0.0;
            &&& 0 <= m < s.orders.len()
            &&& gives_way(map, s1, p, s.orders[m], d) is Ok
            &&& !gives_way(map, s1, p, s.orders[m], d)->Ok_0.1
            &&& unit_at(map, destination(s.orders[m])) is Some
            &&& unit_at(map, destination(s.orders[m]))->0.owner@ == s.orders[m].owner@
        }),
    ensures
        attack_strength(map, s, p, d) is Ok,
        attack_strength(map, s, p, d)->Ok_0.1 == 0,
{
}

/// A successful move empties its source unless another move succeeds into it.
pub proof fn law_source_is_left(map: Seq<MapRegion>, orders: Seq<Order>, i: int, k: int)
    requires
        0 <= i < orders.len(),
        0 <= k < map.len(),
        succeeded(orders[i]),
        orders[i].province.same(map[k].province),
        arrivals(map, orders, k).len() == 0,
    ensures
        unit_after(map, orders, k) is None,
        board_after(map, orders)[k].unit is None,
{
    assert(leaves(map, orders[i], k));
}

/// Determinism: two games with the same board and the same orders end their
/// movement phase in the same way. Either both adjudications fail, and for the
/// same reason, or both succeed and leave the same board, the same dislodged
/// units and the same phase.
pub proof fn law_same_game_same_outcome(
    a: Stpsyr,
    b: Stpsyr,
    a_after: Stpsyr,
    b_after: Stpsyr,
    a_result: Result<Seq<(Province, Unit)>, AdjudicationError>,
    b_result: Result<Seq<(Province, Unit)>, AdjudicationError>,
)
    requires
        a.map@ == b.map@,
        a.orders@ == b.orders@,
        a.dependencies@ == b.dependencies@,
        a.dislodged@ == b.dislodged@,
        a.phase == b.phase,
        a_after.orders_applied(a, a_result),
        b_after.orders_applied(b, b_result),
    ensures
        a_result == b_result,
        a_result is Ok ==> a_after.map@ == b_after.map@ && a_after.dislodged@ == b_after.dislodged@
            && a_after.contested@ == b_after.contested@ && a_after.phase == b_after.phase,
{
}

/// Moves of the power that gives a support do not cut it: the search for a
/// cutting move among `ids[k..]` finds none when all of them belong to the power
/// of the supporting order.
pub proof fn lemma_own_moves_do_not_cut(
    map: Seq<MapRegion>,
    s: Progress,
    supporter: int,
    to: Province,
    ids: Seq<usize>,
    k: int,
    d: nat,
)
    requires
        fit(s),
        within(ids, s.orders.len()),
        0 <= supporter < s.orders.len(),
        forall|j: int|
            0 <= j < ids.len() ==> (#[trigger] s.orders[ids[j] as int]).owner@
                == s.orders[supporter].owner@,
    ensures
        cut(map, s, supporter, to, ids, k, d) is Ok ==> !cut(map, s, supporter, to, ids, k, d)->Ok_0.1,
    decreases ids.len() - k,
{
    if 0 <= k < ids.len() {
        let m = ids[k] as int;
        if by_convoy(s.orders[m]) {
            lemma_convoy_paths(map, s, m, d);
        }
        match way(map, s, m, d) {
            Err(_) => {},
            Ok((s1, open)) => {
                assert(same_orders(s1.orders, s.orders));
                assert(fixed_part(s1.orders[m]) == fixed_part(s.orders[m]));
                assert(fixed_part(s1.orders[supporter]) == fixed_part(s.orders[supporter]));
                assert(s.orders[ids[k] as int].owner@ == s.orders[supporter].owner@);
                assert forall|j: int| 0 <= j < ids.len() implies (#[trigger] s1.orders[ids[j] as int]).owner@
                    == s1.orders[supporter].owner@ by {
                    assert(fixed_part(s1.orders[ids[j] as int]) == fixed_part(
                        s.orders[ids[j] as int],
                    ));
                    assert(s.orders[ids[j] as int].owner@ == s.orders[supporter].owner@);
                }
                lemma_own_moves_do_not_cut(map, s1, supporter, to, ids, k + 1, d);
            },
        }
    }
}

/// A player cannot cut their own support: a support succeeds when every move
/// into the province of the supporting unit belongs to the power that gives the
/// support.
pub proof fn law_no_cut_by_own_moves(map: Seq<MapRegion>, s: Progress, id: int, d: nat)
    requires
        fit(s),
        0 <= id < s.orders.len(),
        s.orders[id].action is SupportHold || s.orders[id].action is SupportMove,
        forall|i: int|
            0 <= i < s.orders.len() && picks(
                Pick::MovesTo(s.orders[id].province),
                #[trigger] s.orders[i],
            ) ==> s.orders[i].owner@ == s.orders[id].owner@,
    ensures
        adjudicate(map, s, id, d) is Ok ==> adjudicate(map, s, id, d)->Ok_0.1,
{
    let q = Pick::MovesTo(s.orders[id].province);
    let ids = chosen(s.orders, q);
    lemma_chosen_within(s, q);
    lemma_chosen_upto(s.orders, q, s.orders.len() as int);
    assert forall|j: int| 0 <= j < ids.len() implies (#[trigger] s.orders[ids[j] as int]).owner@
        == s.orders[id].owner@ by {
        assert(picks(q, s.orders[ids[j] as int]));
    }
    match s.orders[id].action {
        Action::SupportHold { to } => {
            lemma_own_moves_do_not_cut(map, s, id, to, ids, 0, d);
        },
        Action::SupportMove { to, .. } => {
            lemma_own_moves_do_not_cut(map, s, id, to, ids, 0, d);
        },
        _ => {},
    }
}

/// When the orders of a phase have been resolved without an error, every one
/// of them has its final resolution.
pub proof fn law_all_orders_resolved(map: Seq<MapRegion>, s: Progress)
    requires
        resolved_all(map, s) is Ok,
    ensures
        all_resolved(resolved_all(map, s)->Ok_0.orders),
{
}

/// Resolving is idempotent: an order that is resolved answers with its
/// resolution, and asking changes nothing.
pub proof fn law_resolved_stays(map: Seq<MapRegion>, s: Progress, id: int, d: nat)
    requires
        s.orders[id].state == OrderState::RESOLVED,
    ensures
        resolve(map, s, id, d) == Ok::<(Progress, bool), AdjudicationError>(
            (s, s.orders[id].resolution),
        ),
{
}

/// A hold always succeeds.
pub proof fn law_hold_succeeds(map: Seq<MapRegion>, s: Progress, id: int, d: nat)
    requires
        s.orders[id].action is Hold,
    ensures
        adjudicate(map, s, id, d) == Ok::<(Progress, bool), AdjudicationError>((s, true)),
{
}

/// A move over land into an empty province succeeds when it is the only order
/// of the phase.
pub proof fn law_lone_move_succeeds(map: Seq<MapRegion>, o: Order, d: nat)
    requires
        o.action is Move,
        !by_convoy(o),
        !o.province.same(destination(o)),
        unit_at(map, destination(o)) is None,
        o.state == OrderState::UNRESOLVED,
        d > 0,
    ensures
        resolve(map, Progress { orders: seq![o], deps: Seq::empty() }, 0, d) is Ok,
        resolve(map, Progress { orders: seq![o], deps: Seq::empty() }, 0, d)->Ok_0.1,
{
    let s = Progress { orders: seq![o], deps: Seq::empty() };
    let s0 = s.marked(0, false, OrderState::GUESSING);
    let g = s0.orders[0];
    let p = o.province;
    let to = destination(o);
    reveal_with_fuel(chosen_upto, 3);
    assert(s0.orders.len() == 1);
    assert(g.action == o.action && g.province == o.province && g.owner == o.owner);
    assert(chosen(s0.orders, Pick::MovesFrom(p)) =~= seq![0usize]);
    assert(first_chosen(s0.orders, Pick::MovesFrom(p)) == Some(0usize));
    assert(chosen(s0.orders, Pick::Leaves { at: to, attacker: p, convoyed: false }).len() == 0);
    let none: Option<Power> = None;
    assert(attacked_power(map, to, false) == none);
    assert(chosen(s0.orders, Pick::SupportsMove { from: p, to, against: none }).len() == 0);
    assert(count_successes(
        map,
        s0,
        chosen(s0.orders, Pick::SupportsMove { from: p, to, against: none }),
        0,
        0,
        (d - 1) as nat,
    ) == Ok::<(Progress, nat), AdjudicationError>((s0, 0)));
    assert(one_plus(
        map,
        s0,
        chosen(s0.orders, Pick::SupportsMove { from: p, to, against: none }),
        (d - 1) as nat,
    ) == Ok::<(Progress, nat), AdjudicationError>((s0, 1)));
    assert(attack_strength(map, s0, p, (d - 1) as nat) == Ok::<
        (Progress, nat),
        AdjudicationError,
    >((s0, 1)));
    assert(chosen(s0.orders, Pick::HeadOn { attacker: p, target: to }).len() == 0);
    assert(hold_strength(map, s0, to, (d - 1) as nat) == Ok::<(Progress, nat), AdjudicationError>(
        (s0, 0),
    ));
    assert(chosen(s0.orders, Pick::Contests { to, besides: p }).len() == 0);
    assert(outmatches(
        map,
        s0,
        chosen(s0.orders, Pick::Contests { to, besides: p }),
        0,
        1,
        (d - 1) as nat,
    ) == Ok::<(Progress, bool), AdjudicationError>((s0, true)));
    assert(adjudicate(map, s0, 0, (d - 1) as nat) == Ok::<(Progress, bool), AdjudicationError>(
        (s0, true),
    ));
}

} // verus!
