//! What adjudication computes, as mathematical functions.
//!
//! Resolving an order may resolve others on the way, and may leave guesses
//! behind that a caller further up reconciles. Each function here therefore
//! maps the adjudication state before a step to the state after it together
//! with the step's result. The executable resolver is proved to compute exactly
//! these functions.

use vstd::prelude::*;
use crate::board::{region_of, unit_at};
use crate::paths::sea_paths;
use crate::select::{chosen, first_chosen, Pick};
use crate::types::{is_power, Action, MapRegion, Order, OrderState, Power, Province};

verus! {

/// Why an adjudication was given up.
#[derive(Clone, Copy, Debug, PartialEq, Eq, Structural)]
pub enum AdjudicationError {
    /// The chain of orders that wait for each other grew longer than allowed.
    TooDeep,
    /// Orders depend on each other in a circle that is neither a circular
    /// movement nor a convoy paradox.
    UnknownParadox,
    /// An order was left without a final resolution.
    Unsettled,
    /// A move succeeded that starts from or leads to a province that is not on
    /// the map.
    MissingRegion,
}

/// The part of a game that adjudication changes: the orders (of which only
/// `resolution` and `state` are ever written) and the dependency stack.
pub ghost struct Progress {
    pub orders: Seq<Order>,
    pub deps: Seq<usize>,
}

/// The outcome of a step: the state it leaves and its result, or the reason
/// for giving up.
pub type Step<T> = Result<(Progress, T), AdjudicationError>;

/// The order `o` with its adjudication fields replaced.
pub open spec fn remark(o: Order, resolution: bool, state: OrderState) -> Order {
    Order { resolution, state, ..o }
}

/// Where a move order goes.
pub open spec fn destination(o: Order) -> Province {
    match o.action {
        Action::Move { to, .. } => to,
        _ => o.province,
    }
}

/// Whether an order is a move by convoy.
pub open spec fn by_convoy(o: Order) -> bool {
    match o.action {
        Action::Move { convoyed, .. } => convoyed,
        _ => false,
    }
}

impl Progress {
    /// Order `id` gets the given resolution and state.
    pub open spec fn marked(self, id: int, resolution: bool, state: OrderState) -> Progress {
        Progress { orders: self.orders.update(id, remark(self.orders[id], resolution, state)), ..self }
    }

    /// Order `id` gets the given resolution; its state stays.
    pub open spec fn decided(self, id: int, resolution: bool) -> Progress {
        self.marked(id, resolution, self.orders[id].state)
    }

    /// Order `id` is put on top of the dependency stack.
    pub open spec fn pushed(self, id: usize) -> Progress {
        Progress { deps: self.deps.push(id), ..self }
    }

    /// Order `id` is put on the dependency stack unless it is on it already.
    pub open spec fn noted(self, id: usize) -> Progress {
        if self.deps.contains(id) {
            self
        } else {
            self.pushed(id)
        }
    }

    /// The dependencies from position `base` upwards.
    pub open spec fn tail(self, base: int) -> Seq<usize> {
        self.deps.subrange(base, self.deps.len() as int)
    }

    /// The stack is cut back to `base` entries; every order taken off it
    /// becomes unresolved again.
    pub open spec fn drained(self, base: int) -> Progress {
        let tail = self.tail(base);
        Progress {
            orders: Seq::new(
                self.orders.len(),
                |i: int|
                    if tail.contains(i as usize) {
                        remark(self.orders[i], self.orders[i].resolution, OrderState::UNRESOLVED)
                    } else {
                        self.orders[i]
                    },
            ),
            deps: self.deps.subrange(0, base),
        }
    }

    /// Whether all dependencies from `base` upwards are moves.
    pub open spec fn only_moves(self, base: int) -> bool {
        forall|k: int|
            base <= k < self.deps.len() ==> (#[trigger] self.orders[self.deps[k] as int]).action is Move
    }

    /// Whether some dependency from `base` upwards is a convoy order.
    pub open spec fn has_convoy(self, base: int) -> bool {
        exists|k: int|
            base <= k < self.deps.len() && (#[trigger] self.orders[self.deps[k] as int]).action is Convoy
    }

    /// The backup rule for the dependencies from `base` upwards, which form a
    /// circle that no guess settles. A circle of moves is a circular movement:
    /// all of them succeed. A circle with a convoy order in it is a convoy
    /// paradox: the convoys fail and the other orders are adjudicated anew.
    /// Any other circle is an error.
    pub open spec fn backed_up(self, base: int) -> Result<Progress, AdjudicationError> {
        let tail = self.tail(base);
        if self.only_moves(base) {
            Ok(
                Progress {
                    orders: Seq::new(
                        self.orders.len(),
                        |i: int|
                            if tail.contains(i as usize) {
                                remark(self.orders[i], true, OrderState::RESOLVED)
                            } else {
                                self.orders[i]
                            },
                    ),
                    deps: self.deps.subrange(0, base),
                },
            )
        } else if self.has_convoy(base) {
            Ok(
                Progress {
                    orders: Seq::new(
                        self.orders.len(),
                        |i: int|
                            if tail.contains(i as usize) {
                                if self.orders[i].action is Convoy {
                                    remark(self.orders[i], false, OrderState::RESOLVED)
                                } else {
                                    remark(
                                        self.orders[i],
                                        self.orders[i].resolution,
                                        OrderState::UNRESOLVED,
                                    )
                                }
                            } else {
                                self.orders[i]
                            },
                    ),
                    deps: self.deps.subrange(0, base),
                },
            )
        } else {
            Err(AdjudicationError::UnknownParadox)
        }
    }

    /// What becomes of order `id` when its first adjudication, with result
    /// `first`, did not lean on any guess: the order is resolved, with `first`
    /// unless a backup rule further down has resolved it meanwhile.
    pub open spec fn settled(self, id: int, first: bool) -> Progress {
        if self.orders[id].state == OrderState::RESOLVED {
            self
        } else {
            self.marked(id, first, OrderState::RESOLVED)
        }
    }
}

/// Resolves order `id`, following at most `d` orders that wait for each other.
///
/// A resolved order keeps its resolution. An order that is being guessed
/// answers with its guess and is noted as a dependency. An unresolved order is
/// adjudicated under the guess that it fails. If that leaned on no guess, the
/// result stands. If it leaned on the guess of another order, the result is kept
/// as a new guess for the order that started the circle. If it leaned on its own
/// guess, the order is adjudicated again under the guess that it succeeds: equal
/// results stand, different ones call for the backup rule and a fresh start.
pub open spec fn resolve(map: Seq<MapRegion>, s: Progress, id: int, d: nat) -> Step<bool>
    decreases d, 0nat, 0nat,
{
    let o = s.orders[id];
    if o.state == OrderState::RESOLVED {
        Ok((s, o.resolution))
    } else if o.state == OrderState::GUESSING {
        Ok((s.noted(id as usize), o.resolution))
    } else if d == 0 {
        Err(AdjudicationError::TooDeep)
    } else {
        let base = s.deps.len() as int;
        match adjudicate(map, s.marked(id, false, OrderState::GUESSING), id, (d - 1) as nat) {
            Err(e) => Err(e),
            Ok((s1, first)) => {
                if s1.deps.len() == base {
                    Ok((s1.settled(id, first), first))
                } else if s1.deps[base] != id {
                    Ok((s1.pushed(id as usize).decided(id, first), first))
                } else {
                    match adjudicate(
                        map,
                        s1.drained(base).marked(id, true, OrderState::GUESSING),
                        id,
                        (d - 1) as nat,
                    ) {
                        Err(e) => Err(e),
                        Ok((s2, second)) => {
                            if first == second {
                                Ok(
                                    (
                                        s2.drained(base).marked(id, first, OrderState::RESOLVED),
                                        first,
                                    ),
                                )
                            } else {
                                match s2.backed_up(base) {
                                    Err(e) => Err(e),
                                    Ok(s3) => resolve(map, s3, id, (d - 1) as nat),
                                }
                            }
                        },
                    }
                }
            },
        }
    }
}

/// Decides order `id` by the rule for its action, under the guesses that are
/// in force.
///
/// A hold succeeds. A move succeeds when its attack strength is greater than
/// what opposes it at the destination (the defend strength of a unit that comes
/// the other way over land, otherwise the hold strength of the destination) and
/// greater than the prevent strength of every other move to the same place. A
/// support succeeds unless it is cut. A convoy succeeds unless a move into the
/// fleet's province succeeds.
pub open spec fn adjudicate(map: Seq<MapRegion>, s: Progress, id: int, d: nat) -> Step<bool>
    decreases d, 10nat, 0nat,
{
    let o = s.orders[id];
    match o.action {
        Action::Hold => Ok((s, true)),
        Action::Move { to, convoyed } => match attack_strength(map, s, o.province, d) {
            Err(e) => Err(e),
            Ok((s1, attack)) => {
                let head_on = !convoyed && chosen(
                    s1.orders,
                    Pick::HeadOn { attacker: o.province, target: to },
                ).len() > 0;
                let counter = if head_on {
                    defend_strength(map, s1, to, d)
                } else {
                    hold_strength(map, s1, to, d)
                };
                match counter {
                    Err(e) => Err(e),
                    Ok((s2, against)) => {
                        if attack > against {
                            outmatches(
                                map,
                                s2,
                                chosen(s2.orders, Pick::Contests { to, besides: o.province }),
                                0,
                                attack,
                                d,
                            )
                        } else {
                            Ok((s2, false))
                        }
                    },
                }
            },
        },
        Action::SupportHold { to } => match cut(
            map,
            s,
            id,
            to,
            chosen(s.orders, Pick::MovesTo(o.province)),
            0,
            d,
        ) {
            Err(e) => Err(e),
            Ok((s1, is_cut)) => Ok((s1, !is_cut)),
        },
        Action::SupportMove { to, .. } => match cut(
            map,
            s,
            id,
            to,
            chosen(s.orders, Pick::MovesTo(o.province)),
            0,
            d,
        ) {
            Err(e) => Err(e),
            Ok((s1, is_cut)) => Ok((s1, !is_cut)),
        },
        Action::Convoy { .. } => match any_succeeds(
            map,
            s,
            chosen(s.orders, Pick::MovesTo(o.province)),
            0,
            d,
        ) {
            Err(e) => Err(e),
            Ok((s1, dislodged)) => Ok((s1, !dislodged)),
        },
    }
}

/// Whether `attack` is greater than the prevent strength of each of the moves
/// `ids[k..]`. The first move that is not outmatched ends the comparison.
pub open spec fn outmatches(
    map: Seq<MapRegion>,
    s: Progress,
    ids: Seq<usize>,
    k: int,
    attack: nat,
    d: nat,
) -> Step<bool>
    decreases d, 9nat, ids.len() - k,
{
    if k < 0 || k >= ids.len() {
        Ok((s, true))
    } else {
        match prevent_strength(map, s, s.orders[ids[k] as int].province, d) {
            Err(e) => Err(e),
            Ok((s1, prevent)) => if attack > prevent {
                outmatches(map, s1, ids, k + 1, attack, d)
            } else {
                Ok((s1, false))
            },
        }
    }
}

/// Whether one of the moves `ids[k..]`, all of which go into the province of
/// the supporting order `supporter`, cuts that support. A move cuts it when it
/// has a way to get there (over land, or by a convoy route that holds), does
/// not come from `to`, the province the support is for, and belongs to another
/// power than the support.
pub open spec fn cut(
    map: Seq<MapRegion>,
    s: Progress,
    supporter: int,
    to: Province,
    ids: Seq<usize>,
    k: int,
    d: nat,
) -> Step<bool>
    decreases d, 9nat, ids.len() - k,
{
    if k < 0 || k >= ids.len() {
        Ok((s, false))
    } else {
        let m = ids[k] as int;
        let way: Step<bool> = if by_convoy(s.orders[m]) {
            match convoy_paths(map, s, m, d) {
                Err(e) => Err(e),
                Ok((s1, routes)) => Ok((s1, routes.len() > 0)),
            }
        } else {
            Ok((s, true))
        };
        match way {
            Err(e) => Err(e),
            Ok((s1, open)) => {
                let o = s1.orders[m];
                if open && !o.province.same(to) && o.owner@ != s1.orders[supporter].owner@ {
                    Ok((s1, true))
                } else {
                    cut(map, s1, supporter, to, ids, k + 1, d)
                }
            },
        }
    }
}

/// The convoy routes of the convoyed move `mover` on which every fleet's
/// convoy order succeeds.
pub open spec fn convoy_paths(map: Seq<MapRegion>, s: Progress, mover: int, d: nat) -> Step<
    Seq<Seq<usize>>,
>
    decreases d, 7nat, 0nat,
{
    let o = s.orders[mover];
    match region_of(map, o.province) {
        Some(start) => valid_paths(
            map,
            s,
            mover,
            sea_paths(map, s.orders, seq![start], destination(o)),
            0,
            Seq::empty(),
            d,
        ),
        None => Ok((s, Seq::empty())),
    }
}

/// `acc` followed by those of the routes `paths[k..]` that hold.
pub open spec fn valid_paths(
    map: Seq<MapRegion>,
    s: Progress,
    mover: int,
    paths: Seq<Seq<usize>>,
    k: int,
    acc: Seq<Seq<usize>>,
    d: nat,
) -> Step<Seq<Seq<usize>>>
    decreases d, 6nat, paths.len() - k,
{
    if k < 0 || k >= paths.len() {
        Ok((s, acc))
    } else {
        match path_holds(map, s, mover, paths[k], 1, d) {
            Err(e) => Err(e),
            Ok((s1, holds)) => valid_paths(
                map,
                s1,
                mover,
                paths,
                k + 1,
                if holds {
                    acc.push(paths[k])
                } else {
                    acc
                },
                d,
            ),
        }
    }
}

/// Whether each of the regions `path[j..]` has a fleet whose order to convoy
/// the move `mover` succeeds. The first region without one ends the check.
pub open spec fn path_holds(
    map: Seq<MapRegion>,
    s: Progress,
    mover: int,
    path: Seq<usize>,
    j: int,
    d: nat,
) -> Step<bool>
    decreases d, 5nat, path.len() - j,
{
    if j < 0 || j >= path.len() {
        Ok((s, true))
    } else {
        let q = Pick::Convoys {
            at: map[path[j] as int].province,
            from: s.orders[mover].province,
            to: destination(s.orders[mover]),
        };
        match any_succeeds(map, s, chosen(s.orders, q), 0, d) {
            Err(e) => Err(e),
            Ok((s1, carried)) => if carried {
                path_holds(map, s1, mover, path, j + 1, d)
            } else {
                Ok((s1, false))
            },
        }
    }
}

/// Whether one of the orders `ids[k..]` succeeds. They are resolved in turn up
/// to the first that does.
pub open spec fn any_succeeds(
    map: Seq<MapRegion>,
    s: Progress,
    ids: Seq<usize>,
    k: int,
    d: nat,
) -> Step<bool>
    decreases d, 4nat, ids.len() - k,
{
    if k < 0 || k >= ids.len() {
        Ok((s, false))
    } else {
        match resolve(map, s, ids[k] as int, d) {
            Err(e) => Err(e),
            Ok((s1, success)) => if success {
                Ok((s1, true))
            } else {
                any_succeeds(map, s1, ids, k + 1, d)
            },
        }
    }
}

/// `acc` plus the number of the orders `ids[k..]` that succeed. All of them
/// are resolved, in turn.
pub open spec fn count_successes(
    map: Seq<MapRegion>,
    s: Progress,
    ids: Seq<usize>,
    k: int,
    acc: nat,
    d: nat,
) -> Step<nat>
    decreases d, 4nat, ids.len() - k,
{
    if k < 0 || k >= ids.len() {
        Ok((s, acc))
    } else {
        match resolve(map, s, ids[k] as int, d) {
            Err(e) => Err(e),
            Ok((s1, success)) => count_successes(
                map,
                s1,
                ids,
                k + 1,
                if success {
                    acc + 1
                } else {
                    acc
                },
                d,
            ),
        }
    }
}

/// One more than the number of the orders `ids` that succeed.
pub open spec fn one_plus(map: Seq<MapRegion>, s: Progress, ids: Seq<usize>, d: nat) -> Step<nat>
    decreases d, 5nat, 0nat,
{
    match count_successes(map, s, ids, 0, 0, d) {
        Err(e) => Err(e),
        Ok((s1, n)) => Ok((s1, n + 1)),
    }
}

/// The strength with which province `p` is held: 0 when it is empty or its
/// unit moves away, 1 when its unit tries to move and fails, otherwise 1 plus
/// the number of successful supports to hold.
pub open spec fn hold_strength(map: Seq<MapRegion>, s: Progress, p: Province, d: nat) -> Step<nat>
    decreases d, 8nat, 0nat,
{
    if unit_at(map, p) is None {
        Ok((s, 0))
    } else {
        match first_chosen(s.orders, Pick::MovesFrom(p)) {
            Some(m) => match resolve(map, s, m as int, d) {
                Err(e) => Err(e),
                Ok((s1, gone)) => Ok((s1, if gone { 0nat } else { 1nat })),
            },
            None => one_plus(map, s, chosen(s.orders, Pick::SupportsHold(p)), d),
        }
    }
}

/// The power whose unit a move into `to` attacks: the owner of the unit
/// there, unless that unit moves away.
pub open spec fn attacked_power(map: Seq<MapRegion>, to: Province, moved_away: bool) -> Option<
    Power,
> {
    if moved_away {
        None
    } else {
        match unit_at(map, to) {
            Some(u) => Some(u.owner),
            None => None,
        }
    }
}

/// The strength with which the unit in `p` attacks the destination of its
/// move: 0 when it moves by convoy and no route holds; 0 when the unit at the
/// destination belongs to the mover's power and stays, that is, has no
/// successful move other than one head-to-head with this move; otherwise 1 plus
/// the number of successful supports for the move given by powers other than
/// the one attacked.
pub open spec fn attack_strength(map: Seq<MapRegion>, s: Progress, p: Province, d: nat) -> Step<
    nat,
>
    decreases d, 8nat, 0nat,
{
    match first_chosen(s.orders, Pick::MovesFrom(p)) {
        None => Ok((s, 0)),
        Some(m) => {
            let o = s.orders[m as int];
            let to = destination(o);
            let way: Step<bool> = if by_convoy(o) {
                match convoy_paths(map, s, m as int, d) {
                    Err(e) => Err(e),
                    Ok((s1, routes)) => Ok((s1, routes.len() > 0)),
                }
            } else {
                Ok((s, true))
            };
            match way {
                Err(e) => Err(e),
                Ok((s1, open)) => if !open {
                    Ok((s1, 0))
                } else {
                    let away: Step<bool> = match first_chosen(
                        s1.orders,
                        Pick::Leaves { at: to, attacker: p, convoyed: by_convoy(o) },
                    ) {
                        Some(l) => resolve(map, s1, l as int, d),
                        None => Ok((s1, false)),
                    };
                    match away {
                        Err(e) => Err(e),
                        Ok((s2, moved_away)) => {
                            let attacked = attacked_power(map, to, moved_away);
                            if is_power(attacked, o.owner) {
                                Ok((s2, 0))
                            } else {
                                one_plus(
                                    map,
                                    s2,
                                    chosen(
                                        s2.orders,
                                        Pick::SupportsMove { from: p, to, against: attacked },
                                    ),
                                    d,
                                )
                            }
                        },
                    }
                },
            }
        },
    }
}

/// The strength with which the unit in `p` defends its move in a head-to-head
/// battle: 1 plus the number of successful supports for the move.
pub open spec fn defend_strength(map: Seq<MapRegion>, s: Progress, p: Province, d: nat) -> Step<
    nat,
>
    decreases d, 8nat, 0nat,
{
    match first_chosen(s.orders, Pick::MovesFrom(p)) {
        None => Ok((s, 0)),
        Some(m) => one_plus(
            map,
            s,
            chosen(
                s.orders,
                Pick::SupportsMove {
                    from: p,
                    to: destination(s.orders[m as int]),
                    against: None,
                },
            ),
            d,
        ),
    }
}

/// The strength with which the move of the unit in `p` keeps others out of
/// its destination: 0 when it moves by convoy and no route holds; 0 when it
/// goes over land and the unit at the destination comes the other way over land
/// and succeeds; otherwise 1 plus the number of successful supports for the
/// move.
pub open spec fn prevent_strength(map: Seq<MapRegion>, s: Progress, p: Province, d: nat) -> Step<
    nat,
>
    decreases d, 8nat, 0nat,
{
    match first_chosen(s.orders, Pick::MovesFrom(p)) {
        None => Ok((s, 0)),
        Some(m) => {
            let o = s.orders[m as int];
            let to = destination(o);
            let way: Step<bool> = if by_convoy(o) {
                match convoy_paths(map, s, m as int, d) {
                    Err(e) => Err(e),
                    Ok((s1, routes)) => Ok((s1, routes.len() > 0)),
                }
            } else {
                Ok((s, true))
            };
            match way {
                Err(e) => Err(e),
                Ok((s1, open)) => if !open {
                    Ok((s1, 0))
                } else {
                    let lost: Step<bool> = match first_chosen(
                        s1.orders,
                        Pick::HeadOn { attacker: p, target: to },
                    ) {
                        Some(other) => if by_convoy(o) {
                            Ok((s1, false))
                        } else {
                            resolve(map, s1, other as int, d)
                        },
                        None => Ok((s1, false)),
                    };
                    match lost {
                        Err(e) => Err(e),
                        Ok((s2, beaten)) => if beaten {
                            Ok((s2, 0))
                        } else {
                            one_plus(
                                map,
                                s2,
                                chosen(
                                    s2.orders,
                                    Pick::SupportsMove { from: p, to, against: None },
                                ),
                                d,
                            )
                        },
                    }
                },
            }
        },
    }
}

} // verus!
