//! The resolver: it decides which orders of a movement phase succeed.
//!
//! Orders depend on each other, and the dependencies may run in circles. The
//! resolver follows them recursively; where it meets an order that it is
//! already working on, it continues with a guess and checks afterwards whether
//! the guess mattered. Each function below is proved to compute the function of
//! the same name in [`crate::model`].

use vstd::prelude::*;
use crate::model;
use crate::model::{by_convoy, AdjudicationError};
use crate::paths::{paths_fit, paths_view, simple};
use crate::progress::{counted, fixed_part, follows, holds};
use crate::select::{chosen, first_chosen, lemma_chosen_upto, picks, Pick};
use crate::types::{Action, Order, OrderState, Power, Province, Stpsyr};

verus! {

/// The routes that a convoy search returned.
pub open spec fn routes(r: Result<Vec<Vec<usize>>, AdjudicationError>) -> Result<
    Seq<Seq<usize>>,
    AdjudicationError,
> {
    match r {
        Ok(v) => Ok(paths_view(v@)),
        Err(e) => Err(e),
    }
}

/// How many orders that wait for each other the resolver follows before it
/// gives up, for a phase with `n` orders: `n * n + 2 * n + 2`, or the largest
/// `usize` if that is less.
///
/// A chain of orders that wait for each other names each order once as long
/// as no circle is met, so it is no longer than `n`. An order that a circle has
/// put back may be taken up again further down; the square leaves room for that.
pub open spec fn depth_limit(n: nat) -> nat {
    if n * n + 2 * n + 2 <= usize::MAX {
        n * n + 2 * n + 2
    } else {
        usize::MAX as nat
    }
}

/// An order that `q` picks makes `q` find something.
pub proof fn lemma_picked(orders: Seq<Order>, q: Pick, i: int)
    requires
        0 <= i < orders.len() <= usize::MAX,
        picks(q, orders[i]),
    ensures
        first_chosen(orders, q) is Some,
{
    lemma_chosen_upto(orders, q, orders.len() as int);
    assert(chosen(orders, q).contains(i as usize));
}

impl Stpsyr {
    /// Computes [`depth_limit`] for the orders of this phase.
    pub fn depth(&self) -> (d: usize)
        ensures
            d == depth_limit(self.orders.len() as nat),
    {
        let n = self.orders.len();
        match n.checked_mul(n) {
            None => usize::MAX,
            Some(sq) => match n.checked_mul(2) {
                None => usize::MAX,
                Some(twice) => match sq.checked_add(twice) {
                    None => usize::MAX,
                    Some(sum) => match sum.checked_add(2) {
                        None => usize::MAX,
                        Some(all) => all,
                    },
                },
            },
        }
    }

    /// Resolves order `id`: tells whether it succeeds, and records what has
    /// been found out on the way. The resolver follows at most
    /// [`depth_limit`] orders that wait for each other.
    pub fn resolve(&mut self, id: usize) -> (r: Result<bool, AdjudicationError>)
        requires
            old(self).ready(),
            id < old(self).orders.len(),
        ensures
            follows(
                *old(self),
                *final(self),
                r,
                model::resolve(
                    old(self).map@,
                    old(self).progress(),
                    id as int,
                    depth_limit(old(self).orders.len() as nat),
                ),
            ),
            old(self).orders[id as int].state == OrderState::RESOLVED ==> *final(self) == *old(self)
                && r == Ok::<bool, AdjudicationError>(old(self).orders[id as int].resolution),
            old(self).orders[id as int].state == OrderState::GUESSING ==> final(self).orders@ == old(
                self,
            ).orders@ && r == Ok::<bool, AdjudicationError>(old(self).orders[id as int].resolution),
    {
        let d = self.depth();
        self.resolve_within(id, d)
    }

    /// Resolves order `id`, following at most `d` orders that wait for each other.
    pub fn resolve_within(&mut self, id: usize, d: usize) -> (r: Result<bool, AdjudicationError>)
        requires
            old(self).ready(),
            id < old(self).orders.len(),
        ensures
            follows(
                *old(self),
                *final(self),
                r,
                model::resolve(old(self).map@, old(self).progress(), id as int, d as nat),
            ),
            old(self).orders[id as int].state == OrderState::RESOLVED ==> *final(self) == *old(self)
                && r == Ok::<bool, AdjudicationError>(old(self).orders[id as int].resolution),
            old(self).orders[id as int].state == OrderState::GUESSING ==> final(self).orders@ == old(
                self,
            ).orders@ && r == Ok::<bool, AdjudicationError>(old(self).orders[id as int].resolution),
        decreases d, 0nat,
    {
        match self.orders[id].state {
            OrderState::RESOLVED => Ok(self.orders[id].resolution),
            OrderState::GUESSING => {
                if !holds(&self.dependencies, id) {
                    self.dependencies.push(id);
                }
                Ok(self.orders[id].resolution)
            },
            OrderState::UNRESOLVED => {
                if d == 0 {
                    return Err(AdjudicationError::TooDeep);
                }
                let base = self.dependencies.len();
                self.mark(id, false, OrderState::GUESSING);
                let first = self.adjudicate(id, d - 1)?;
                if self.dependencies.len() == base {
                    match self.orders[id].state {
                        OrderState::RESOLVED => {},
                        _ => {
                            self.mark(id, first, OrderState::RESOLVED);
                        },
                    }
                    return Ok(first);
                }
                if self.dependencies[base] != id {
                    self.dependencies.push(id);
                    let state = self.orders[id].state;
                    self.mark(id, first, state);
                    return Ok(first);
                }
                self.drain(base);
                self.mark(id, true, OrderState::GUESSING);
                let second = self.adjudicate(id, d - 1)?;
                if first == second {
                    self.drain(base);
                    self.mark(id, first, OrderState::RESOLVED);
                    return Ok(first);
                }
                let (only_moves, convoys) = self.circle(base);
                if !only_moves && !convoys {
                    return Err(AdjudicationError::UnknownParadox);
                }
                self.backup_rule(base);
                self.resolve_within(id, d - 1)
            },
        }
    }

    /// Decides order `id` by the rule for its action, under the guesses in force.
    pub fn adjudicate(&mut self, id: usize, d: usize) -> (r: Result<bool, AdjudicationError>)
        requires
            old(self).ready(),
            id < old(self).orders.len(),
        ensures
            follows(
                *old(self),
                *final(self),
                r,
                model::adjudicate(old(self).map@, old(self).progress(), id as int, d as nat),
            ),
        decreases d, 20nat,
    {
        let province = self.orders[id].province.clone();
        let action = self.orders[id].action.clone();
        match action {
            Action::Hold => Ok(true),
            Action::Move { to, convoyed } => {
                proof {
                    lemma_picked(self.orders@, Pick::MovesFrom(province), id as int);
                }
                let attack = self.attack_strength(&province, d)?;
                let rivals = self.select(
                    &Pick::HeadOn { attacker: province.clone(), target: to.clone() },
                );
                let against = if !convoyed && rivals.len() > 0 {
                    proof {
                        lemma_picked(self.orders@, Pick::MovesFrom(to), rivals[0] as int);
                    }
                    self.defend_strength(&to, d)?
                } else {
                    self.hold_strength(&to, d)?
                };
                if attack > against {
                    let ids = self.select(
                        &Pick::Contests { to: to.clone(), besides: province.clone() },
                    );
                    self.outmatches(&ids, attack, d)
                } else {
                    Ok(false)
                }
            },
            Action::SupportHold { to } => {
                let ids = self.select(&Pick::MovesTo(province.clone()));
                let is_cut = self.cut(id, &to, &ids, d)?;
                Ok(!is_cut)
            },
            Action::SupportMove { from: _, to } => {
                let ids = self.select(&Pick::MovesTo(province.clone()));
                let is_cut = self.cut(id, &to, &ids, d)?;
                Ok(!is_cut)
            },
            Action::Convoy { .. } => {
                let ids = self.select(&Pick::MovesTo(province.clone()));
                let dislodged = self.any_succeeds(&ids, d)?;
                Ok(!dislodged)
            },
        }
    }

    /// Tells whether `attack` is greater than the prevent strength of each of
    /// the moves `ids`.
    pub fn outmatches(&mut self, ids: &Vec<usize>, attack: usize, d: usize) -> (r: Result<
        bool,
        AdjudicationError,
    >)
        requires
            old(self).ready(),
            forall|k: int|
                0 <= k < ids.len() ==> (#[trigger] ids[k]) < old(self).orders.len() && old(
                    self,
                ).orders[ids[k] as int].action is Move,
        ensures
            follows(
                *old(self),
                *final(self),
                r,
                model::outmatches(
                    old(self).map@,
                    old(self).progress(),
                    ids@,
                    0,
                    attack as nat,
                    d as nat,
                ),
            ),
        decreases d, 18nat,
    {
        let mut k: usize = 0;
        while k < ids.len()
            invariant
                k <= ids.len(),
                self.advanced_from(*old(self)),
                self.ready(),
                forall|j: int|
                    0 <= j < ids.len() ==> (#[trigger] ids[j]) < old(self).orders.len() && old(
                        self,
                    ).orders[ids[j] as int].action is Move,
                model::outmatches(self.map@, self.progress(), ids@, k as int, attack as nat, d as nat)
                    == model::outmatches(
                    old(self).map@,
                    old(self).progress(),
                    ids@,
                    0,
                    attack as nat,
                    d as nat,
                ),
            decreases ids.len() - k,
        {
            let c = ids[k];
            let province = self.orders[c].province.clone();
            proof {
                assert(fixed_part(self.orders[c as int]) == fixed_part(old(self).orders[c as int]));
                lemma_picked(self.orders@, Pick::MovesFrom(province), c as int);
            }
            let prevent = self.prevent_strength(&province, d)?;
            if !(attack > prevent) {
                return Ok(false);
            }
            k += 1;
        }
        Ok(true)
    }

    /// Tells whether one of the moves `ids`, which go into the province of the
    /// supporting order `supporter`, cuts that support for `to`.
    pub fn cut(&mut self, supporter: usize, to: &Province, ids: &Vec<usize>, d: usize) -> (r:
        Result<bool, AdjudicationError>)
        requires
            old(self).ready(),
            supporter < old(self).orders.len(),
            forall|k: int|
                0 <= k < ids.len() ==> (#[trigger] ids[k]) < old(self).orders.len() && old(
                    self,
                ).orders[ids[k] as int].action is Move,
        ensures
            follows(
                *old(self),
                *final(self),
                r,
                model::cut(
                    old(self).map@,
                    old(self).progress(),
                    supporter as int,
                    *to,
                    ids@,
                    0,
                    d as nat,
                ),
            ),
        decreases d, 18nat,
    {
        let mut k: usize = 0;
        while k < ids.len()
            invariant
                k <= ids.len(),
                supporter < old(self).orders.len(),
                self.advanced_from(*old(self)),
                self.ready(),
                forall|j: int|
                    0 <= j < ids.len() ==> (#[trigger] ids[j]) < old(self).orders.len() && old(
                        self,
                    ).orders[ids[j] as int].action is Move,
                model::cut(
                    self.map@,
                    self.progress(),
                    supporter as int,
                    *to,
                    ids@,
                    k as int,
                    d as nat,
                ) == model::cut(
                    old(self).map@,
                    old(self).progress(),
                    supporter as int,
                    *to,
                    ids@,
                    0,
                    d as nat,
                ),
            decreases ids.len() - k,
        {
            let m = ids[k];
            assert(fixed_part(self.orders[m as int]) == fixed_part(old(self).orders[m as int]));
            let convoyed = match &self.orders[m].action {
                Action::Move { convoyed, .. } => *convoyed,
                _ => false,
            };
            let open = if convoyed {
                let found = self.convoy_paths(m, d)?;
                found.len() > 0
            } else {
                true
            };
            if open && !self.orders[m].province.is(to) && !self.orders[m].owner.same(
                &self.orders[supporter].owner,
            ) {
                return Ok(true);
            }
            k += 1;
        }
        Ok(false)
    }

    /// Finds the convoy routes of the convoyed move `mover` on which every
    /// fleet's convoy order succeeds. Each route lists the indices of its
    /// regions, beginning with the province the army starts from.
    pub fn convoy_paths(&mut self, mover: usize, d: usize) -> (r: Result<
        Vec<Vec<usize>>,
        AdjudicationError,
    >)
        requires
            old(self).ready(),
            mover < old(self).orders.len(),
            by_convoy(old(self).orders[mover as int]),
        ensures
            follows(
                *old(self),
                *final(self),
                routes(r),
                model::convoy_paths(old(self).map@, old(self).progress(), mover as int, d as nat),
            ),
        decreases d, 14nat,
    {
        let from = self.orders[mover].province.clone();
        let to = match &self.orders[mover].action {
            Action::Move { to, .. } => to.clone(),
            _ => from.clone(),
        };
        let start = match self.region_index(&from) {
            Some(k) => k,
            None => {
                let none: Vec<Vec<usize>> = Vec::new();
                assert(paths_view(none@) =~= Seq::<Seq<usize>>::empty());
                return Ok(none);
            },
        };
        let mut origin: Vec<usize> = Vec::new();
        origin.push(start);
        assert(origin@ =~= seq![start]);
        assert(simple(self.map@, origin@));
        let paths = self.find_paths(origin, &to);
        let mut valid: Vec<Vec<usize>> = Vec::new();
        assert(paths_view(valid@) =~= Seq::<Seq<usize>>::empty());
        let mut k: usize = 0;
        while k < paths.len()
            invariant
                k <= paths.len(),
                mover < old(self).orders.len(),
                self.advanced_from(*old(self)),
                self.ready(),
                paths_fit(paths_view(paths@), self.map.len() as int),
                model::valid_paths(
                    self.map@,
                    self.progress(),
                    mover as int,
                    paths_view(paths@),
                    k as int,
                    paths_view(valid@),
                    d as nat,
                ) == model::convoy_paths(
                    old(self).map@,
                    old(self).progress(),
                    mover as int,
                    d as nat,
                ),
            decreases paths.len() - k,
        {
            assert(paths_view(paths@)[k as int] == paths@[k as int]@);
            let ghost before = paths_view(valid@);
            let sound = self.path_holds(mover, &paths[k], d)?;
            if sound {
                valid.push(paths[k].clone());
                assert(paths_view(valid@) =~= before.push(paths@[k as int]@));
            }
            k += 1;
        }
        Ok(valid)
    }

    /// Tells whether each region of `path` after the first has a fleet whose
    /// order to convoy the move `mover` succeeds.
    pub fn path_holds(&mut self, mover: usize, path: &Vec<usize>, d: usize) -> (r: Result<
        bool,
        AdjudicationError,
    >)
        requires
            old(self).ready(),
            mover < old(self).orders.len(),
            forall|j: int| 0 <= j < path.len() ==> (#[trigger] path[j]) < old(self).map.len(),
        ensures
            follows(
                *old(self),
                *final(self),
                r,
                model::path_holds(
                    old(self).map@,
                    old(self).progress(),
                    mover as int,
                    path@,
                    1,
                    d as nat,
                ),
            ),
        decreases d, 10nat,
    {
        let mut j: usize = 1;
        while j < path.len()
            invariant
                1 <= j,
                mover < old(self).orders.len(),
                self.advanced_from(*old(self)),
                self.ready(),
                forall|i: int| 0 <= i < path.len() ==> (#[trigger] path[i]) < old(self).map.len(),
                model::path_holds(
                    self.map@,
                    self.progress(),
                    mover as int,
                    path@,
                    j as int,
                    d as nat,
                ) == model::path_holds(
                    old(self).map@,
                    old(self).progress(),
                    mover as int,
                    path@,
                    1,
                    d as nat,
                ),
            decreases path.len() - j,
        {
            let to = match &self.orders[mover].action {
                Action::Move { to, .. } => to.clone(),
                _ => self.orders[mover].province.clone(),
            };
            let q = Pick::Convoys {
                at: self.map[path[j]].province.clone(),
                from: self.orders[mover].province.clone(),
                to,
            };
            let ids = self.select(&q);
            let carried = self.any_succeeds(&ids, d)?;
            if !carried {
                return Ok(false);
            }
            j += 1;
        }
        Ok(true)
    }

    /// Tells whether one of the orders `ids` succeeds, resolving them in turn
    /// up to the first that does.
    pub fn any_succeeds(&mut self, ids: &Vec<usize>, d: usize) -> (r: Result<
        bool,
        AdjudicationError,
    >)
        requires
            old(self).ready(),
            forall|k: int| 0 <= k < ids.len() ==> (#[trigger] ids[k]) < old(self).orders.len(),
        ensures
            follows(
                *old(self),
                *final(self),
                r,
                model::any_succeeds(old(self).map@, old(self).progress(), ids@, 0, d as nat),
            ),
        decreases d, 8nat,
    {
        let mut k: usize = 0;
        while k < ids.len()
            invariant
                k <= ids.len(),
                self.advanced_from(*old(self)),
                self.ready(),
                forall|j: int| 0 <= j < ids.len() ==> (#[trigger] ids[j]) < old(self).orders.len(),
                model::any_succeeds(self.map@, self.progress(), ids@, k as int, d as nat)
                    == model::any_succeeds(
                    old(self).map@,
                    old(self).progress(),
                    ids@,
                    0,
                    d as nat,
                ),
            decreases ids.len() - k,
        {
            if self.resolve_within(ids[k], d)? {
                return Ok(true);
            }
            k += 1;
        }
        Ok(false)
    }

    /// Counts how many of the orders `ids` succeed, resolving all of them in turn.
    pub fn count_successes(&mut self, ids: &Vec<usize>, d: usize) -> (r: Result<
        usize,
        AdjudicationError,
    >)
        requires
            old(self).ready(),
            forall|k: int| 0 <= k < ids.len() ==> (#[trigger] ids[k]) < old(self).orders.len(),
        ensures
            follows(
                *old(self),
                *final(self),
                counted(r),
                model::count_successes(old(self).map@, old(self).progress(), ids@, 0, 0, d as nat),
            ),
            r is Ok ==> r->Ok_0 <= ids.len(),
        decreases d, 8nat,
    {
        let mut k: usize = 0;
        let mut n: usize = 0;
        while k < ids.len()
            invariant
                n <= k <= ids.len(),
                self.advanced_from(*old(self)),
                self.ready(),
                forall|j: int| 0 <= j < ids.len() ==> (#[trigger] ids[j]) < old(self).orders.len(),
                model::count_successes(
                    self.map@,
                    self.progress(),
                    ids@,
                    k as int,
                    n as nat,
                    d as nat,
                ) == model::count_successes(
                    old(self).map@,
                    old(self).progress(),
                    ids@,
                    0,
                    0,
                    d as nat,
                ),
            decreases ids.len() - k,
        {
            if self.resolve_within(ids[k], d)? {
                n += 1;
            }
            k += 1;
        }
        Ok(n)
    }

    /// One more than the number of the orders `ids` that succeed.
    pub fn one_plus(&mut self, ids: &Vec<usize>, d: usize) -> (r: Result<usize, AdjudicationError>)
        requires
            old(self).ready(),
            ids.len() <= old(self).orders.len(),
            forall|k: int| 0 <= k < ids.len() ==> (#[trigger] ids[k]) < old(self).orders.len(),
        ensures
            follows(
                *old(self),
                *final(self),
                counted(r),
                model::one_plus(old(self).map@, old(self).progress(), ids@, d as nat),
            ),
        decreases d, 10nat,
    {
        let n = self.count_successes(ids, d)?;
        Ok(n + 1)
    }

    /// The strength with which `province` is held.
    pub fn hold_strength(&mut self, province: &Province, d: usize) -> (r: Result<
        usize,
        AdjudicationError,
    >)
        requires
            old(self).ready(),
        ensures
            follows(
                *old(self),
                *final(self),
                counted(r),
                model::hold_strength(old(self).map@, old(self).progress(), *province, d as nat),
            ),
        decreases d, 16nat,
    {
        if self.get_unit(province).is_none() {
            return Ok(0);
        }
        match self.find(&Pick::MovesFrom(province.clone())) {
            Some(m) => {
                let gone = self.resolve_within(m, d)?;
                Ok(if gone { 0 } else { 1 })
            },
            None => {
                let ids = self.select(&Pick::SupportsHold(province.clone()));
                self.one_plus(&ids, d)
            },
        }
    }

    /// Tells whether the convoyed move `m` has a route that holds; a move over
    /// land always has a way.
    fn has_way(&mut self, m: usize, d: usize) -> (r: Result<bool, AdjudicationError>)
        requires
            old(self).ready(),
            m < old(self).orders.len(),
        ensures
            follows(
                *old(self),
                *final(self),
                r,
                if by_convoy(old(self).orders[m as int]) {
                    match model::convoy_paths(
                        old(self).map@,
                        old(self).progress(),
                        m as int,
                        d as nat,
                    ) {
                        Err(e) => Err(e),
                        Ok((s1, found)) => Ok((s1, found.len() > 0)),
                    }
                } else {
                    Ok((old(self).progress(), true))
                },
            ),
        decreases d, 15nat,
    {
        let convoyed = match &self.orders[m].action {
            Action::Move { convoyed, .. } => *convoyed,
            _ => false,
        };
        if convoyed {
            let found = self.convoy_paths(m, d)?;
            Ok(found.len() > 0)
        } else {
            Ok(true)
        }
    }

    /// The strength with which the unit in `province` attacks the destination
    /// of its move.
    pub fn attack_strength(&mut self, province: &Province, d: usize) -> (r: Result<
        usize,
        AdjudicationError,
    >)
        requires
            old(self).ready(),
            first_chosen(old(self).orders@, Pick::MovesFrom(*province)) is Some,
        ensures
            follows(
                *old(self),
                *final(self),
                counted(r),
                model::attack_strength(old(self).map@, old(self).progress(), *province, d as nat),
            ),
        decreases d, 16nat,
    {
        let m = match self.find(&Pick::MovesFrom(province.clone())) {
            Some(m) => m,
            None => {
                return Ok(0);
            },
        };
        let owner = self.orders[m].owner.clone();
        let (to, convoyed) = match &self.orders[m].action {
            Action::Move { to, convoyed } => (to.clone(), *convoyed),
            _ => (self.orders[m].province.clone(), false),
        };
        if !self.has_way(m, d)? {
            return Ok(0);
        }
        let leaving = self.find(
            &Pick::Leaves { at: to.clone(), attacker: province.clone(), convoyed },
        );
        let moved_away = match leaving {
            Some(l) => self.resolve_within(l, d)?,
            None => false,
        };
        let attacked: Option<Power> = if moved_away {
            None
        } else {
            match self.get_unit(&to) {
                Some(u) => Some(u.owner),
                None => None,
            }
        };
        let own = match &attacked {
            Some(p) => p.same(&owner),
            None => false,
        };
        if own {
            return Ok(0);
        }
        let ids = self.select(
            &Pick::SupportsMove { from: province.clone(), to: to.clone(), against: attacked },
        );
        self.one_plus(&ids, d)
    }

    /// The strength with which the unit in `province` defends its move in a
    /// head-to-head battle.
    pub fn defend_strength(&mut self, province: &Province, d: usize) -> (r: Result<
        usize,
        AdjudicationError,
    >)
        requires
            old(self).ready(),
            first_chosen(old(self).orders@, Pick::MovesFrom(*province)) is Some,
        ensures
            follows(
                *old(self),
                *final(self),
                counted(r),
                model::defend_strength(old(self).map@, old(self).progress(), *province, d as nat),
            ),
        decreases d, 16nat,
    {
        let m = match self.find(&Pick::MovesFrom(province.clone())) {
            Some(m) => m,
            None => {
                return Ok(0);
            },
        };
        let to = match &self.orders[m].action {
            Action::Move { to, .. } => to.clone(),
            _ => self.orders[m].province.clone(),
        };
        let ids = self.select(&Pick::SupportsMove { from: province.clone(), to, against: None });
        self.one_plus(&ids, d)
    }

    /// The strength with which the move of the unit in `province` keeps other
    /// units out of its destination.
    pub fn prevent_strength(&mut self, province: &Province, d: usize) -> (r: Result<
        usize,
        AdjudicationError,
    >)
        requires
            old(self).ready(),
            first_chosen(old(self).orders@, Pick::MovesFrom(*province)) is Some,
        ensures
            follows(
                *old(self),
                *final(self),
                counted(r),
                model::prevent_strength(old(self).map@, old(self).progress(), *province, d as nat),
            ),
        decreases d, 16nat,
    {
        let m = match self.find(&Pick::MovesFrom(province.clone())) {
            Some(m) => m,
            None => {
                return Ok(0);
            },
        };
        let (to, convoyed) = match &self.orders[m].action {
            Action::Move { to, convoyed } => (to.clone(), *convoyed),
            _ => (self.orders[m].province.clone(), false),
        };
        if !self.has_way(m, d)? {
            return Ok(0);
        }
        let other = self.find(&Pick::HeadOn { attacker: province.clone(), target: to.clone() });
        let beaten = match other {
            Some(x) => if convoyed {
                false
            } else {
                self.resolve_within(x, d)?
            },
            None => false,
        };
        if beaten {
            return Ok(0);
        }
        let ids = self.select(&Pick::SupportsMove { from: province.clone(), to, against: None });
        self.one_plus(&ids, d)
    }
}

} // verus!
