//! The adjudication state of a game and the small steps that change it.

use vstd::prelude::*;
use crate::board::region_of;
use crate::model::{remark, AdjudicationError, Progress, Step};
use crate::types::{Action, Order, OrderState, Power, Province, Stpsyr};

verus! {

/// What the resolver never changes in an order.
pub open spec fn fixed_part(o: Order) -> (Power, Province, Action, usize) {
    (o.owner, o.province, o.action, o.id)
}

/// Whether two order lists hold the same orders apart from their adjudication fields.
pub open spec fn same_orders(a: Seq<Order>, b: Seq<Order>) -> bool {
    &&& a.len() == b.len()
    &&& forall|i: int| 0 <= i < a.len() ==> fixed_part(#[trigger] a[i]) == fixed_part(b[i])
}

/// The result of a strength calculation as a natural number.
pub open spec fn counted(r: Result<usize, AdjudicationError>) -> Result<nat, AdjudicationError> {
    match r {
        Ok(n) => Ok(n as nat),
        Err(e) => Err(e),
    }
}

/// Whether a call that took the game from `before` to `after` and returned `r`
/// did what the step `m` says: the game is the same apart from the progress of
/// the adjudication, and on success that progress and the result are those of
/// `m`, while on failure `m` fails in the same way.
pub open spec fn follows<T>(
    before: Stpsyr,
    after: Stpsyr,
    r: Result<T, AdjudicationError>,
    m: Step<T>,
) -> bool {
    &&& after.advanced_from(before)
    &&& after.ready()
    &&& match r {
        Ok(v) => m == Ok::<(Progress, T), AdjudicationError>((after.progress(), v)),
        Err(e) => m == Err::<(Progress, T), AdjudicationError>(e),
    }
}

/// Tells whether `id` is among `v`.
pub fn holds(v: &Vec<usize>, id: usize) -> (r: bool)
    ensures
        r == v@.contains(id),
{
    let mut k: usize = 0;
    while k < v.len()
        invariant
            k <= v.len(),
            forall|j: int| 0 <= j < k ==> v@[j] != id,
        decreases v.len() - k,
    {
        if v[k] == id {
            return true;
        }
        k += 1;
    }
    false
}

impl Stpsyr {
    /// The part of the game that adjudication works on.
    pub open spec fn progress(&self) -> Progress {
        Progress { orders: self.orders@, deps: self.dependencies@ }
    }

    /// Whether the game is fit for adjudication: the dependency stack names
    /// orders, and every order is for a province that is on the map.
    pub open spec fn ready(&self) -> bool {
        &&& self.orders.len() < usize::MAX
        &&& forall|k: int|
            0 <= k < self.dependencies.len() ==> (#[trigger] self.dependencies[k])
                < self.orders.len()
        &&& forall|i: int|
            0 <= i < self.orders.len() ==> region_of(
                self.map@,
                (#[trigger] self.orders[i]).province,
            ) is Some
    }

    /// Whether this game is `before` after some adjudication: nothing but the
    /// adjudication fields of the orders and the dependency stack differs, and
    /// the stack has not shrunk.
    pub open spec fn advanced_from(&self, before: Stpsyr) -> bool {
        &&& *self == (Stpsyr { orders: self.orders, dependencies: self.dependencies, ..before })
        &&& same_orders(self.orders@, before.orders@)
        &&& self.dependencies.len() >= before.dependencies.len()
    }

    /// Writes the adjudication fields of order `id`.
    pub fn mark(&mut self, id: usize, resolution: bool, state: OrderState)
        requires
            id < old(self).orders.len(),
        ensures
            final(self).progress() == old(self).progress().marked(id as int, resolution, state),
            *final(self) == (Stpsyr { orders: final(self).orders, ..*old(self) }),
            same_orders(final(self).orders@, old(self).orders@),
    {
        self.orders[id].resolution = resolution;
        self.orders[id].state = state;
        assert(self.orders@ =~= old(self).orders@.update(
            id as int,
            remark(old(self).orders@[id as int], resolution, state),
        ));
    }

    /// Cuts the dependency stack back to `base` entries and makes every order
    /// taken off it unresolved again.
    pub fn drain(&mut self, base: usize)
        requires
            base <= old(self).dependencies.len(),
            forall|k: int|
                0 <= k < old(self).dependencies.len() ==> (#[trigger] old(self).dependencies[k])
                    < old(self).orders.len(),
        ensures
            final(self).progress() == old(self).progress().drained(base as int),
            *final(self) == (Stpsyr {
                orders: final(self).orders,
                dependencies: final(self).dependencies,
                ..*old(self)
            }),
            same_orders(final(self).orders@, old(self).orders@),
    {
        let ghost start = self.progress();
        let mut k: usize = base;
        while k < self.dependencies.len()
            invariant
                base <= k <= self.dependencies.len(),
                self.dependencies == old(self).dependencies,
                *self == (Stpsyr { orders: self.orders, ..*old(self) }),
                same_orders(self.orders@, old(self).orders@),
                start == old(self).progress(),
                forall|j: int|
                    0 <= j < self.dependencies.len() ==> (#[trigger] self.dependencies[j])
                        < self.orders.len(),
                forall|i: int|
                    0 <= i < self.orders.len() ==> #[trigger] self.orders[i] == (if start.deps.subrange(
                        base as int,
                        k as int,
                    ).contains(i as usize) {
                        remark(start.orders[i], start.orders[i].resolution, OrderState::UNRESOLVED)
                    } else {
                        start.orders[i]
                    }),
            decreases self.dependencies.len() - k,
        {
            let dep = self.dependencies[k];
            let ghost done = start.deps.subrange(base as int, k as int);
            let ghost more = start.deps.subrange(base as int, k as int + 1);
            self.orders[dep].state = OrderState::UNRESOLVED;
            proof {
                assert(more =~= done.push(dep));
                assert forall|i: int| 0 <= i < self.orders.len() implies #[trigger] self.orders[i]
                    == (if more.contains(i as usize) {
                    remark(start.orders[i], start.orders[i].resolution, OrderState::UNRESOLVED)
                } else {
                    start.orders[i]
                }) by {
                    if i == dep as int {
                        assert(more[more.len() - 1] == dep);
                    } else if done.contains(i as usize) {
                        let j = choose|j: int| 0 <= j < done.len() && done[j] == i as usize;
                        assert(more[j] == i as usize);
                    } else {
                        if more.contains(i as usize) {
                            let j = choose|j: int| 0 <= j < more.len() && more[j] == i as usize;
                            if j < done.len() {
                                assert(done[j] == i as usize);
                            }
                        }
                    }
                }
            }
            k += 1;
        }
        self.dependencies.truncate(base);
        proof {
            assert(start.deps.subrange(base as int, start.deps.len() as int) == start.tail(
                base as int,
            ));
            assert(self.progress().orders =~= start.drained(base as int).orders);
            assert(self.progress().deps =~= start.drained(base as int).deps);
        }
    }

    /// Looks at the dependencies from `base` upwards: tells whether all of
    /// them are moves, and whether a convoy order is among them.
    pub fn circle(&self, base: usize) -> (r: (bool, bool))
        requires
            base <= self.dependencies.len(),
            forall|k: int|
                0 <= k < self.dependencies.len() ==> (#[trigger] self.dependencies[k])
                    < self.orders.len(),
        ensures
            r.0 == self.progress().only_moves(base as int),
            r.1 == self.progress().has_convoy(base as int),
    {
        let ghost start = self.progress();
        let mut only_moves = true;
        let mut convoys = false;
        let mut k: usize = base;
        while k < self.dependencies.len()
            invariant
                base <= k <= self.dependencies.len(),
                start == self.progress(),
                forall|j: int|
                    0 <= j < self.dependencies.len() ==> (#[trigger] self.dependencies[j])
                        < self.orders.len(),
                only_moves == (forall|j: int|
                    base <= j < k ==> (#[trigger] start.orders[start.deps[j] as int]).action is Move),
                convoys == (exists|j: int|
                    base <= j < k && (#[trigger] start.orders[start.deps[j] as int]).action is Convoy),
            decreases self.dependencies.len() - k,
        {
            let dep = self.dependencies[k];
            match self.orders[dep].action {
                Action::Move { .. } => {},
                Action::Convoy { .. } => {
                    only_moves = false;
                    convoys = true;
                },
                _ => {
                    only_moves = false;
                },
            }
            k += 1;
        }
        assert(only_moves == start.only_moves(base as int));
        assert(convoys == start.has_convoy(base as int));
        (only_moves, convoys)
    }

    /// Applies the backup rule to the dependencies from `base` upwards and
    /// takes them off the stack: in a circle of moves every move succeeds; in a
    /// circle with a convoy order the convoys fail and the rest becomes
    /// unresolved again. No rule is known for any other circle.
    pub fn backup_rule(&mut self, base: usize)
        requires
            base <= old(self).dependencies.len(),
            forall|k: int|
                0 <= k < old(self).dependencies.len() ==> (#[trigger] old(self).dependencies[k])
                    < old(self).orders.len(),
            old(self).progress().only_moves(base as int) || old(self).progress().has_convoy(
                base as int,
            ),
        ensures
            old(self).progress().backed_up(base as int) == Ok::<Progress, AdjudicationError>(
                final(self).progress(),
            ),
            *final(self) == (Stpsyr {
                orders: final(self).orders,
                dependencies: final(self).dependencies,
                ..*old(self)
            }),
            same_orders(final(self).orders@, old(self).orders@),
            final(self).dependencies@ == old(self).dependencies@.subrange(0, base as int),
    {
        let ghost start = self.progress();
        let (only_moves, convoys) = self.circle(base);
        let mut k: usize = base;
        while k < self.dependencies.len()
            invariant
                base <= k <= self.dependencies.len(),
                self.dependencies == old(self).dependencies,
                *self == (Stpsyr { orders: self.orders, ..*old(self) }),
                same_orders(self.orders@, old(self).orders@),
                start == old(self).progress(),
                only_moves || convoys,
                forall|j: int|
                    0 <= j < self.dependencies.len() ==> (#[trigger] self.dependencies[j])
                        < self.orders.len(),
                forall|i: int|
                    0 <= i < self.orders.len() ==> #[trigger] self.orders[i] == (if start.deps.subrange(
                        base as int,
                        k as int,
                    ).contains(i as usize) {
                        if only_moves {
                            remark(start.orders[i], true, OrderState::RESOLVED)
                        } else if start.orders[i].action is Convoy {
                            remark(start.orders[i], false, OrderState::RESOLVED)
                        } else {
                            remark(
                                start.orders[i],
                                start.orders[i].resolution,
                                OrderState::UNRESOLVED,
                            )
                        }
                    } else {
                        start.orders[i]
                    }),
            decreases self.dependencies.len() - k,
        {
            let dep = self.dependencies[k];
            let ghost done = start.deps.subrange(base as int, k as int);
            let ghost more = start.deps.subrange(base as int, k as int + 1);
            let ghost prev = self.orders@;
            if only_moves {
                self.orders[dep].resolution = true;
                self.orders[dep].state = OrderState::RESOLVED;
            } else {
                let is_convoy = match self.orders[dep].action {
                    Action::Convoy { .. } => true,
                    _ => false,
                };
                if is_convoy {
                    self.orders[dep].resolution = false;
                    self.orders[dep].state = OrderState::RESOLVED;
                } else {
                    self.orders[dep].state = OrderState::UNRESOLVED;
                }
            }
            proof {
                assert(more =~= done.push(dep));
                assert forall|i: int| 0 <= i < self.orders.len() implies #[trigger] self.orders[i]
                    == (if more.contains(i as usize) {
                    if only_moves {
                        remark(start.orders[i], true, OrderState::RESOLVED)
                    } else if start.orders[i].action is Convoy {
                        remark(start.orders[i], false, OrderState::RESOLVED)
                    } else {
                        remark(start.orders[i], start.orders[i].resolution, OrderState::UNRESOLVED)
                    }
                } else {
                    start.orders[i]
                }) by {
                    assert(fixed_part(prev[i]) == fixed_part(start.orders[i]));
                    if i == dep as int {
                        assert(more[more.len() - 1] == dep);
                    } else if done.contains(i as usize) {
                        let j = choose|j: int| 0 <= j < done.len() && done[j] == i as usize;
                        assert(more[j] == i as usize);
                    } else {
                        if more.contains(i as usize) {
                            let j = choose|j: int| 0 <= j < more.len() && more[j] == i as usize;
                            if j < done.len() {
                                assert(done[j] == i as usize);
                            }
                        }
                    }
                }
            }
            k += 1;
        }
        self.dependencies.truncate(base);
        proof {
            let want = start.backed_up(base as int)->Ok_0;
            assert(start.deps.subrange(base as int, start.deps.len() as int) == start.tail(
                base as int,
            ));
            assert(self.progress().orders =~= want.orders);
            assert(self.progress().deps =~= want.deps);
        }
    }
}

} // verus!
