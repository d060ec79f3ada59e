//! Picking orders out of the order list by what they ask for.

use vstd::prelude::*;
use crate::types::{Action, Order, Power, Province, Stpsyr};

verus! {

/// A question about a single order. The resolver and the strength calculators
/// find the orders they depend on by asking one of these of every order.
pub enum Pick {
    /// A move of the unit in this province.
    MovesFrom(Province),
    /// A move into this province.
    MovesTo(Province),
    /// A move over land from `target` into `attacker`: the other half of a
    /// head-to-head battle with a unit that moves from `attacker` to `target`.
    HeadOn { attacker: Province, target: Province },
    /// A move into `to` by a unit other than the one in `besides`.
    Contests { to: Province, besides: Province },
    /// A move of the unit in `at` that is not head-to-head with a move from
    /// `attacker` into `at`; `convoyed` says whether that attacking move goes by sea.
    Leaves { at: Province, attacker: Province, convoyed: bool },
    /// A support for the unit in this province to hold.
    SupportsHold(Province),
    /// A support for the move `from` -> `to`, given by a power other than `against`.
    SupportsMove { from: Province, to: Province, against: Option<Power> },
    /// A convoy order of the fleet in `at` for the move `from` -> `to`.
    Convoys { at: Province, from: Province, to: Province },
}

/// Whether order `o` is one that `q` asks for. Only the owner, the province and
/// the action of an order are looked at, never its adjudication fields.
pub open spec fn picks(q: Pick, o: Order) -> bool {
    match q {
        Pick::MovesFrom(p) => o.action is Move && o.province.same(p),
        Pick::MovesTo(p) => match o.action {
            Action::Move { to, .. } => p.same(to),
            _ => false,
        },
        Pick::HeadOn { attacker, target } => match o.action {
            Action::Move { to, convoyed } => attacker.same(to) && !convoyed && o.province.same(
                target,
            ),
            _ => false,
        },
        Pick::Contests { to, besides } => match o.action {
            Action::Move { to: t, .. } => to.same(t) && !o.province.same(besides),
            _ => false,
        },
        Pick::Leaves { at, attacker, convoyed } => match o.action {
            Action::Move { to, convoyed: c } => (convoyed || c || !to.same(attacker))
                && o.province.same(at),
            _ => false,
        },
        Pick::SupportsHold(p) => match o.action {
            Action::SupportHold { to } => to.same(p),
            _ => false,
        },
        Pick::SupportsMove { from, to, against } => match o.action {
            Action::SupportMove { from: f, to: t } => f.same(from) && t.same(to) && (
            against is None || against->0@ != o.owner@),
            _ => false,
        },
        Pick::Convoys { at, from, to } => match o.action {
            Action::Convoy { from: f, to: t } => o.province.same(at) && f.same(from) && to.same(
                t,
            ),
            _ => false,
        },
    }
}

/// The indices below `n` of the orders that `q` asks for, in ascending order.
pub open spec fn chosen_upto(orders: Seq<Order>, q: Pick, n: int) -> Seq<usize>
    decreases n,
{
    if n <= 0 {
        Seq::empty()
    } else {
        let before = chosen_upto(orders, q, n - 1);
        if picks(q, orders[n - 1]) {
            before.push((n - 1) as usize)
        } else {
            before
        }
    }
}

/// The indices of all orders that `q` asks for, in submission order.
pub open spec fn chosen(orders: Seq<Order>, q: Pick) -> Seq<usize> {
    chosen_upto(orders, q, orders.len() as int)
}

/// The first order that `q` asks for.
pub open spec fn first_chosen(orders: Seq<Order>, q: Pick) -> Option<usize> {
    if chosen(orders, q).len() > 0 {
        Some(chosen(orders, q)[0])
    } else {
        None
    }
}

/// What `chosen_upto` holds: exactly the indices below `n` that `q` picks, each
/// once, in ascending order.
pub proof fn lemma_chosen_upto(orders: Seq<Order>, q: Pick, n: int)
    requires
        0 <= n <= orders.len() <= usize::MAX,
    ensures
        chosen_upto(orders, q, n).len() <= n,
        forall|k: int|
            0 <= k < chosen_upto(orders, q, n).len() ==> {
                &&& (#[trigger] chosen_upto(orders, q, n)[k]) < n
                &&& picks(q, orders[chosen_upto(orders, q, n)[k] as int])
            },
        forall|j: int, k: int|
            0 <= j < k < chosen_upto(orders, q, n).len() ==> (#[trigger] chosen_upto(
                orders,
                q,
                n,
            )[j]) < (#[trigger] chosen_upto(orders, q, n)[k]),
        forall|i: int|
            0 <= i < n && picks(q, #[trigger] orders[i]) ==> chosen_upto(orders, q, n).contains(
                i as usize,
            ),
    decreases n,
{
    if n > 0 {
        lemma_chosen_upto(orders, q, n - 1);
        let before = chosen_upto(orders, q, n - 1);
        let now = chosen_upto(orders, q, n);
        assert forall|k: int| 0 <= k < now.len() implies (#[trigger] now[k]) < n && picks(
            q,
            orders[now[k] as int],
        ) by {
            if k < before.len() {
                assert(now[k] == before[k]);
            }
        }
        assert forall|j: int, k: int| 0 <= j < k < now.len() implies (#[trigger] now[j]) < (
        #[trigger] now[k]) by {
            assert(now[j] == before[j]);
            if k < before.len() {
                assert(now[k] == before[k]);
            }
        }
        assert forall|i: int| 0 <= i < n && picks(q, #[trigger] orders[i]) implies now.contains(
            i as usize,
        ) by {
            if i < n - 1 {
                let k = choose|k: int| 0 <= k < before.len() && before[k] == i as usize;
                assert(now[k] == i as usize);
            } else {
                assert(now[now.len() - 1] == i as usize);
            }
        }
    }
}

/// The selection up to `m` is the beginning of the selection up to `n`.
pub proof fn lemma_chosen_prefix(orders: Seq<Order>, q: Pick, m: int, n: int)
    requires
        0 <= m <= n,
    ensures
        chosen_upto(orders, q, m).len() <= chosen_upto(orders, q, n).len(),
        chosen_upto(orders, q, n).subrange(0, chosen_upto(orders, q, m).len() as int)
            == chosen_upto(orders, q, m),
    decreases n - m,
{
    if m < n {
        lemma_chosen_prefix(orders, q, m, n - 1);
        assert(chosen_upto(orders, q, n).subrange(0, chosen_upto(orders, q, m).len() as int)
            =~= chosen_upto(orders, q, m));
    } else {
        assert(chosen_upto(orders, q, n).subrange(0, chosen_upto(orders, q, m).len() as int)
            =~= chosen_upto(orders, q, m));
    }
}

/// Whether two optional powers are both present and the same player.
pub fn differs_from(against: &Option<Power>, owner: &Power) -> (r: bool)
    ensures
        r == (*against is None || against->0@ != owner@),
{
    match against {
        None => true,
        Some(p) => !p.same(owner),
    }
}

/// Answers the question `q` for the order `o`.
pub fn pick(q: &Pick, o: &Order) -> (r: bool)
    ensures
        r == picks(*q, *o),
{
    match q {
        Pick::MovesFrom(p) => match &o.action {
            Action::Move { .. } => o.province.is(p),
            _ => false,
        },
        Pick::MovesTo(p) => match &o.action {
            Action::Move { to, .. } => p.is(to),
            _ => false,
        },
        Pick::HeadOn { attacker, target } => match &o.action {
            Action::Move { to, convoyed } => attacker.is(to) && !*convoyed && o.province.is(target),
            _ => false,
        },
        Pick::Contests { to, besides } => match &o.action {
            Action::Move { to: t, .. } => to.is(t) && !o.province.is(besides),
            _ => false,
        },
        Pick::Leaves { at, attacker, convoyed } => match &o.action {
            Action::Move { to, convoyed: c } => (*convoyed || *c || !to.is(attacker))
                && o.province.is(at),
            _ => false,
        },
        Pick::SupportsHold(p) => match &o.action {
            Action::SupportHold { to } => to.is(p),
            _ => false,
        },
        Pick::SupportsMove { from, to, against } => match &o.action {
            Action::SupportMove { from: f, to: t } => f.is(from) && t.is(to) && differs_from(
                against,
                &o.owner,
            ),
            _ => false,
        },
        Pick::Convoys { at, from, to } => match &o.action {
            Action::Convoy { from: f, to: t } => o.province.is(at) && f.is(from) && to.is(t),
            _ => false,
        },
    }
}

impl Stpsyr {
    /// The indices of all orders that `q` asks for, in submission order.
    pub fn select(&self, q: &Pick) -> (r: Vec<usize>)
        ensures
            r@ == chosen(self.orders@, *q),
            r.len() <= self.orders.len(),
            forall|k: int|
                0 <= k < r.len() ==> (#[trigger] r[k]) < self.orders.len() && picks(
                    *q,
                    self.orders[r[k] as int],
                ),
    {
        let mut out: Vec<usize> = Vec::new();
        let mut i: usize = 0;
        while i < self.orders.len()
            invariant
                i <= self.orders.len(),
                out@ == chosen_upto(self.orders@, *q, i as int),
            decreases self.orders.len() - i,
        {
            if pick(q, &self.orders[i]) {
                out.push(i);
            }
            i += 1;
        }
        proof {
            lemma_chosen_upto(self.orders@, *q, self.orders.len() as int);
        }
        out
    }

    /// The first order that `q` asks for.
    pub fn find(&self, q: &Pick) -> (r: Option<usize>)
        ensures
            r == first_chosen(self.orders@, *q),
            r is Some ==> r->0 < self.orders.len() && picks(*q, self.orders[r->0 as int]),
    {
        let mut i: usize = 0;
        while i < self.orders.len()
            invariant
                i <= self.orders.len(),
                chosen_upto(self.orders@, *q, i as int).len() == 0,
            decreases self.orders.len() - i,
        {
            if pick(q, &self.orders[i]) {
                proof {
                    lemma_chosen_prefix(
                        self.orders@,
                        *q,
                        i as int + 1,
                        self.orders.len() as int,
                    );
                    assert(chosen_upto(self.orders@, *q, i as int + 1)[0] == i);
                    assert(chosen(self.orders@, *q).subrange(0, 1)[0] == i);
                }
                return Some(i);
            }
            i += 1;
        }
        None
    }
}

} // verus!
