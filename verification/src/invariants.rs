//! What adjudication never changes.
//!
//! Every step of the resolver leaves what the orders ask for as it is, keeps
//! the dependency stack within the order list, and leaves what it found on the
//! stack where it was: dependencies are added and taken off only above it. The
//! proofs follow the steps one by one.

use vstd::prelude::*;
use crate::board::region_of;
use crate::model::{
    adjudicate, any_succeeds, attack_strength, attacked_power, by_convoy, convoy_paths,
    count_successes, cut, defend_strength, destination, hold_strength, one_plus, outmatches,
    path_holds, prevent_strength, resolve, valid_paths, Progress, Step,
};
use crate::paths::sea_paths;
use crate::progress::same_orders;
use crate::select::{chosen, first_chosen, lemma_chosen_upto, Pick};
use crate::types::{Action, MapRegion, OrderState, Province};

verus! {

/// Whether the dependency stack names orders of the list.
pub open spec fn fit(s: Progress) -> bool {
    &&& s.orders.len() <= usize::MAX
    &&& forall|k: int| 0 <= k < s.deps.len() ==> (#[trigger] s.deps[k]) < s.orders.len()
}

/// Whether the step with outcome `r`, taken in state `s`, kept what has to be
/// kept: the orders ask for the same as before, the stack names orders of the
/// list, and what was on the stack before is still there, at the bottom.
pub open spec fn keeps<T>(s: Progress, r: Step<T>) -> bool {
    match r {
        Ok((s1, _)) => same_orders(s1.orders, s.orders) && fit(s1) && s1.deps.len()
            >= s.deps.len() && forall|k: int|
            0 <= k < s.deps.len() ==> (#[trigger] s1.deps[k]) == s.deps[k],
        Err(_) => true,
    }
}

/// Whether all of `ids` are indices into a list of `n` orders.
pub open spec fn within(ids: Seq<usize>, n: nat) -> bool {
    forall|k: int| 0 <= k < ids.len() ==> (#[trigger] ids[k]) < n
}

/// The orders that a question picks are orders of the list.
pub proof fn lemma_chosen_within(s: Progress, q: Pick)
    requires
        s.orders.len() <= usize::MAX,
    ensures
        within(chosen(s.orders, q), s.orders.len()),
        first_chosen(s.orders, q) is Some ==> first_chosen(s.orders, q)->0 < s.orders.len(),
{
    lemma_chosen_upto(s.orders, q, s.orders.len() as int);
}

/// Cutting the stack back keeps what has to be kept.
pub proof fn lemma_drained(s: Progress, base: int)
    requires
        fit(s),
        0 <= base <= s.deps.len(),
    ensures
        same_orders(s.drained(base).orders, s.orders),
        fit(s.drained(base)),
        s.drained(base).deps.len() == base,
{
}

/// The backup rule keeps what has to be kept.
pub proof fn lemma_backed_up(s: Progress, base: int)
    requires
        fit(s),
        0 <= base <= s.deps.len(),
    ensures
        match s.backed_up(base) {
            Ok(s1) => same_orders(s1.orders, s.orders) && fit(s1) && s1.deps.len() == base,
            Err(_) => true,
        },
{
}

/// Resolving an order keeps what has to be kept.
pub proof fn lemma_resolve(map: Seq<MapRegion>, s: Progress, id: int, d: nat)
    requires
        fit(s),
        0 <= id < s.orders.len(),
    ensures
        keeps(s, resolve(map, s, id, d)),
    decreases d, 0nat, 0nat,
{
    let o = s.orders[id];
    if o.state == OrderState::RESOLVED {
    } else if o.state == OrderState::GUESSING {
    } else if d == 0 {
    } else {
        let base = s.deps.len() as int;
        let s0 = s.marked(id, false, OrderState::GUESSING);
        assert(same_orders(s0.orders, s.orders));
        lemma_adjudicate(map, s0, id, (d - 1) as nat);
        match adjudicate(map, s0, id, (d - 1) as nat) {
            Err(_) => {},
            Ok((s1, first)) => {
                if s1.deps.len() == base {
                    assert(same_orders(s1.settled(id, first).orders, s.orders));
                } else if s1.deps[base] != id {
                    let s2 = s1.pushed(id as usize).decided(id, first);
                    assert(same_orders(s2.orders, s.orders));
                    assert forall|k: int| 0 <= k < s2.deps.len() implies (#[trigger] s2.deps[k])
                        < s2.orders.len() by {
                        if k < s1.deps.len() {
                            assert(s2.deps[k] == s1.deps[k]);
                        }
                    }
                } else {
                    lemma_drained(s1, base);
                    let s2 = s1.drained(base).marked(id, true, OrderState::GUESSING);
                    assert(same_orders(s2.orders, s.orders));
                    lemma_adjudicate(map, s2, id, (d - 1) as nat);
                    match adjudicate(map, s2, id, (d - 1) as nat) {
                        Err(_) => {},
                        Ok((s3, second)) => {
                            if first == second {
                                lemma_drained(s3, base);
                                let s4 = s3.drained(base).marked(id, first, OrderState::RESOLVED);
                                assert(same_orders(s4.orders, s.orders));
                            } else {
                                lemma_backed_up(s3, base);
                                match s3.backed_up(base) {
                                    Err(_) => {},
                                    Ok(s4) => {
                                        assert(same_orders(s4.orders, s.orders));
                                        lemma_resolve(map, s4, id, (d - 1) as nat);
                                    },
                                }
                            }
                        },
                    }
                }
            },
        }
    }
}

/// Adjudicating an order keeps what has to be kept.
pub proof fn lemma_adjudicate(map: Seq<MapRegion>, s: Progress, id: int, d: nat)
    requires
        fit(s),
        0 <= id < s.orders.len(),
    ensures
        keeps(s, adjudicate(map, s, id, d)),
    decreases d, 10nat, 0nat,
{
    let o = s.orders[id];
    match o.action {
        Action::Hold => {},
        Action::Move { to, convoyed } => {
            lemma_attack_strength(map, s, o.province, d);
            match attack_strength(map, s, o.province, d) {
                Err(_) => {},
                Ok((s1, attack)) => {
                    let head_on = !convoyed && chosen(
                        s1.orders,
                        Pick::HeadOn { attacker: o.province, target: to },
                    ).len() > 0;
                    lemma_defend_strength(map, s1, to, d);
                    lemma_hold_strength(map, s1, to, d);
                    let counter = if head_on {
                        defend_strength(map, s1, to, d)
                    } else {
                        hold_strength(map, s1, to, d)
                    };
                    match counter {
                        Err(_) => {},
                        Ok((s2, against)) => {
                            if attack > against {
                                let ids = chosen(
                                    s2.orders,
                                    Pick::Contests { to, besides: o.province },
                                );
                                lemma_chosen_within(s2, Pick::Contests { to, besides: o.province });
                                lemma_outmatches(map, s2, ids, 0, attack, d);
                            }
                        },
                    }
                },
            }
        },
        Action::SupportHold { to } => {
            lemma_chosen_within(s, Pick::MovesTo(o.province));
            lemma_cut(map, s, id, to, chosen(s.orders, Pick::MovesTo(o.province)), 0, d);
        },
        Action::SupportMove { to, .. } => {
            lemma_chosen_within(s, Pick::MovesTo(o.province));
            lemma_cut(map, s, id, to, chosen(s.orders, Pick::MovesTo(o.province)), 0, d);
        },
        Action::Convoy { .. } => {
            lemma_chosen_within(s, Pick::MovesTo(o.province));
            lemma_any_succeeds(map, s, chosen(s.orders, Pick::MovesTo(o.province)), 0, d);
        },
    }
}

/// Comparing an attack with the prevent strengths keeps what has to be kept.
pub proof fn lemma_outmatches(
    map: Seq<MapRegion>,
    s: Progress,
    ids: Seq<usize>,
    k: int,
    attack: nat,
    d: nat,
)
    requires
        fit(s),
        within(ids, s.orders.len()),
    ensures
        keeps(s, outmatches(map, s, ids, k, attack, d)),
    decreases d, 9nat, ids.len() - k,
{
    if 0 <= k < ids.len() {
        let p = s.orders[ids[k] as int].province;
        lemma_prevent_strength(map, s, p, d);
        match prevent_strength(map, s, p, d) {
            Err(_) => {},
            Ok((s1, prevent)) => {
                if attack > prevent {
                    lemma_outmatches(map, s1, ids, k + 1, attack, d);
                }
            },
        }
    }
}

/// Looking for a move that cuts a support keeps what has to be kept.
pub proof fn lemma_cut(
    map: Seq<MapRegion>,
    s: Progress,
    supporter: int,
    to: Province,
    ids: Seq<usize>,
    k: int,
    d: nat,
)
    requires
        fit(s),
        within(ids, s.orders.len()),
    ensures
        keeps(s, cut(map, s, supporter, to, ids, k, d)),
    decreases d, 9nat, ids.len() - k,
{
    if 0 <= k < ids.len() {
        let m = ids[k] as int;
        if by_convoy(s.orders[m]) {
            lemma_convoy_paths(map, s, m, d);
        }
        let way: Step<bool> = if by_convoy(s.orders[m]) {
            match convoy_paths(map, s, m, d) {
                Err(e) => Err(e),
                Ok((s1, routes)) => Ok((s1, routes.len() > 0)),
            }
        } else {
            Ok((s, true))
        };
        match way {
            Err(_) => {},
            Ok((s1, open)) => {
                let o = s1.orders[m];
                if open && !o.province.same(to) && o.owner@ != s1.orders[supporter].owner@ {
                } else {
                    lemma_cut(map, s1, supporter, to, ids, k + 1, d);
                }
            },
        }
    }
}

/// Finding the convoy routes that hold keeps what has to be kept.
pub proof fn lemma_convoy_paths(map: Seq<MapRegion>, s: Progress, mover: int, d: nat)
    requires
        fit(s),
        0 <= mover < s.orders.len(),
    ensures
        keeps(s, convoy_paths(map, s, mover, d)),
    decreases d, 7nat, 0nat,
{
    let o = s.orders[mover];
    match region_of(map, o.province) {
        Some(start) => {
            lemma_valid_paths(
                map,
                s,
                mover,
                sea_paths(map, s.orders, seq![start], destination(o)),
                0,
                Seq::empty(),
                d,
            );
        },
        None => {},
    }
}

/// Checking routes one after the other keeps what has to be kept.
pub proof fn lemma_valid_paths(
    map: Seq<MapRegion>,
    s: Progress,
    mover: int,
    paths: Seq<Seq<usize>>,
    k: int,
    acc: Seq<Seq<usize>>,
    d: nat,
)
    requires
        fit(s),
        0 <= mover < s.orders.len(),
    ensures
        keeps(s, valid_paths(map, s, mover, paths, k, acc, d)),
    decreases d, 6nat, paths.len() - k,
{
    if 0 <= k < paths.len() {
        lemma_path_holds(map, s, mover, paths[k], 1, d);
        match path_holds(map, s, mover, paths[k], 1, d) {
            Err(_) => {},
            Ok((s1, holds)) => {
                lemma_valid_paths(
                    map,
                    s1,
                    mover,
                    paths,
                    k + 1,
                    if holds {
                        acc.push(paths[k])
                    } else {
                        acc
                    },
                    d,
                );
            },
        }
    }
}

/// Checking the fleets of a route keeps what has to be kept.
pub proof fn lemma_path_holds(
    map: Seq<MapRegion>,
    s: Progress,
    mover: int,
    path: Seq<usize>,
    j: int,
    d: nat,
)
    requires
        fit(s),
        0 <= mover < s.orders.len(),
    ensures
        keeps(s, path_holds(map, s, mover, path, j, d)),
    decreases d, 5nat, path.len() - j,
{
    if 0 <= j < path.len() {
        let q = Pick::Convoys {
            at: map[path[j] as int].province,
            from: s.orders[mover].province,
            to: destination(s.orders[mover]),
        };
        lemma_chosen_within(s, q);
        lemma_any_succeeds(map, s, chosen(s.orders, q), 0, d);
        match any_succeeds(map, s, chosen(s.orders, q), 0, d) {
            Err(_) => {},
            Ok((s1, carried)) => {
                if carried {
                    lemma_path_holds(map, s1, mover, path, j + 1, d);
                }
            },
        }
    }
}

/// Looking for an order that succeeds keeps what has to be kept.
pub proof fn lemma_any_succeeds(map: Seq<MapRegion>, s: Progress, ids: Seq<usize>, k: int, d: nat)
    requires
        fit(s),
        within(ids, s.orders.len()),
    ensures
        keeps(s, any_succeeds(map, s, ids, k, d)),
    decreases d, 4nat, ids.len() - k,
{
    if 0 <= k < ids.len() {
        lemma_resolve(map, s, ids[k] as int, d);
        match resolve(map, s, ids[k] as int, d) {
            Err(_) => {},
            Ok((s1, success)) => {
                if !success {
                    lemma_any_succeeds(map, s1, ids, k + 1, d);
                }
            },
        }
    }
}

/// Counting the orders that succeed keeps what has to be kept.
pub proof fn lemma_count_successes(
    map: Seq<MapRegion>,
    s: Progress,
    ids: Seq<usize>,
    k: int,
    acc: nat,
    d: nat,
)
    requires
        fit(s),
        within(ids, s.orders.len()),
    ensures
        keeps(s, count_successes(map, s, ids, k, acc, d)),
    decreases d, 4nat, ids.len() - k,
{
    if 0 <= k < ids.len() {
        lemma_resolve(map, s, ids[k] as int, d);
        match resolve(map, s, ids[k] as int, d) {
            Err(_) => {},
            Ok((s1, success)) => {
                lemma_count_successes(
                    map,
                    s1,
                    ids,
                    k + 1,
                    if success {
                        acc + 1
                    } else {
                        acc
                    },
                    d,
                );
            },
        }
    }
}

/// Counting supports keeps what has to be kept.
pub proof fn lemma_one_plus(map: Seq<MapRegion>, s: Progress, ids: Seq<usize>, d: nat)
    requires
        fit(s),
        within(ids, s.orders.len()),
    ensures
        keeps(s, one_plus(map, s, ids, d)),
    decreases d, 5nat, 0nat,
{
    lemma_count_successes(map, s, ids, 0, 0, d);
}

/// Computing a hold strength keeps what has to be kept.
pub proof fn lemma_hold_strength(map: Seq<MapRegion>, s: Progress, p: Province, d: nat)
    requires
        fit(s),
    ensures
        keeps(s, hold_strength(map, s, p, d)),
    decreases d, 8nat, 0nat,
{
    lemma_chosen_within(s, Pick::MovesFrom(p));
    lemma_chosen_within(s, Pick::SupportsHold(p));
    match first_chosen(s.orders, Pick::MovesFrom(p)) {
        Some(m) => {
            lemma_resolve(map, s, m as int, d);
        },
        None => {
            lemma_one_plus(map, s, chosen(s.orders, Pick::SupportsHold(p)), d);
        },
    }
}

/// Computing an attack strength keeps what has to be kept.
pub proof fn lemma_attack_strength(map: Seq<MapRegion>, s: Progress, p: Province, d: nat)
    requires
        fit(s),
    ensures
        keeps(s, attack_strength(map, s, p, d)),
    decreases d, 8nat, 0nat,
{
    lemma_chosen_within(s, Pick::MovesFrom(p));
    match first_chosen(s.orders, Pick::MovesFrom(p)) {
        None => {},
        Some(m) => {
            let o = s.orders[m as int];
            let to = destination(o);
            if by_convoy(o) {
                lemma_convoy_paths(map, s, m as int, d);
            }
            let way: Step<bool> = if by_convoy(o) {
                match convoy_paths(map, s, m as int, d) {
                    Err(e) => Err(e),
                    Ok((s1, routes)) => Ok((s1, routes.len() > 0)),
                }
            } else {
                Ok((s, true))
            };
            match way {
                Err(_) => {},
                Ok((s1, open)) => {
                    if open {
                        let q = Pick::Leaves { at: to, attacker: p, convoyed: by_convoy(o) };
                        lemma_chosen_within(s1, q);
                        let away: Step<bool> = match first_chosen(s1.orders, q) {
                            Some(l) => resolve(map, s1, l as int, d),
                            None => Ok((s1, false)),
                        };
                        match first_chosen(s1.orders, q) {
                            Some(l) => {
                                lemma_resolve(map, s1, l as int, d);
                            },
                            None => {},
                        }
                        match away {
                            Err(_) => {},
                            Ok((s2, moved_away)) => {
                                let attacked = attacked_power(map, to, moved_away);
                                let q2 = Pick::SupportsMove { from: p, to, against: attacked };
                                lemma_chosen_within(s2, q2);
                                lemma_one_plus(map, s2, chosen(s2.orders, q2), d);
                            },
                        }
                    }
                },
            }
        },
    }
}

/// Computing a defend strength keeps what has to be kept.
pub proof fn lemma_defend_strength(map: Seq<MapRegion>, s: Progress, p: Province, d: nat)
    requires
        fit(s),
    ensures
        keeps(s, defend_strength(map, s, p, d)),
    decreases d, 8nat, 0nat,
{
    lemma_chosen_within(s, Pick::MovesFrom(p));
    match first_chosen(s.orders, Pick::MovesFrom(p)) {
        None => {},
        Some(m) => {
            let q = Pick::SupportsMove {
                from: p,
                to: destination(s.orders[m as int]),
                against: None,
            };
            lemma_chosen_within(s, q);
            lemma_one_plus(map, s, chosen(s.orders, q), d);
        },
    }
}

/// Computing a prevent strength keeps what has to be kept.
pub proof fn lemma_prevent_strength(map: Seq<MapRegion>, s: Progress, p: Province, d: nat)
    requires
        fit(s),
    ensures
        keeps(s, prevent_strength(map, s, p, d)),
    decreases d, 8nat, 0nat,
{
    lemma_chosen_within(s, Pick::MovesFrom(p));
    match first_chosen(s.orders, Pick::MovesFrom(p)) {
        None => {},
        Some(m) => {
            let o = s.orders[m as int];
            let to = destination(o);
            if by_convoy(o) {
                lemma_convoy_paths(map, s, m as int, d);
            }
            let way: Step<bool> = if by_convoy(o) {
                match convoy_paths(map, s, m as int, d) {
                    Err(e) => Err(e),
                    Ok((s1, routes)) => Ok((s1, routes.len() > 0)),
                }
            } else {
                Ok((s, true))
            };
            match way {
                Err(_) => {},
                Ok((s1, open)) => {
                    if open {
                        let q = Pick::HeadOn { attacker: p, target: to };
                        lemma_chosen_within(s1, q);
                        let lost: Step<bool> = match first_chosen(s1.orders, q) {
                            Some(other) => if by_convoy(o) {
                                Ok((s1, false))
                            } else {
                                resolve(map, s1, other as int, d)
                            },
                            None => Ok((s1, false)),
                        };
                        match first_chosen(s1.orders, q) {
                            Some(other) => {
                                if !by_convoy(o) {
                                    lemma_resolve(map, s1, other as int, d);
                                }
                            },
                            None => {},
                        }
                        match lost {
                            Err(_) => {},
                            Ok((s2, beaten)) => {
                                if !beaten {
                                    let q2 = Pick::SupportsMove { from: p, to, against: None };
                                    lemma_chosen_within(s2, q2);
                                    lemma_one_plus(map, s2, chosen(s2.orders, q2), d);
                                }
                            },
                        }
                    }
                },
            }
        },
    }
}

} // verus!
