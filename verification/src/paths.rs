//! The search for convoy routes: chains of fleets at sea that can carry an army
//! from its province to the coast it wants to reach.

use vstd::prelude::*;
use vstd::set_lib::{lemma_int_range, lemma_len_subset, set_int_range};
use crate::board::{contains_province, lists};
use crate::select::{chosen, Pick};
use crate::types::{MapRegion, Order, Province, Stpsyr};

verus! {

/// Whether the region with index `r` has the same province as a region already on `path`.
pub open spec fn on_path(map: Seq<MapRegion>, path: Seq<usize>, r: int) -> bool {
    exists|k: int|
        0 <= k < path.len() && (#[trigger] map[path[k] as int]).province.same(map[r].province)
}

/// Whether the fleet in region `r` can be the next link of the chain `path`
/// towards `target`: `r` is open water next to the end of the chain (a fleet
/// can go there, an army cannot), its fleet has been ordered to convoy from the
/// chain's origin to `target`, and the chain has not been there yet.
pub open spec fn can_join(
    map: Seq<MapRegion>,
    orders: Seq<Order>,
    path: Seq<usize>,
    target: Province,
    r: int,
) -> bool {
    let here = map[path.last() as int];
    &&& lists(here.fleet_borders@, map[r].province)
    &&& !lists(here.army_borders@, map[r].province)
    &&& chosen(
        orders,
        Pick::Convoys { at: map[r].province, from: map[path[0] as int].province, to: target },
    ).len() > 0
    &&& !on_path(map, path, r)
}

/// Whether `path` is a chain of regions of the map that visits no province twice.
pub open spec fn simple(map: Seq<MapRegion>, path: Seq<usize>) -> bool {
    &&& map.len() <= usize::MAX
    &&& path.len() > 0
    &&& forall|k: int| 0 <= k < path.len() ==> (#[trigger] path[k]) < map.len()
    &&& forall|i: int, j: int|
        0 <= i < j < path.len() ==> !(#[trigger] map[path[i] as int]).province.same(
            (#[trigger] map[path[j] as int]).province,
        )
}

/// A chain that does not visit region `r` yet is shorter than the map is large.
pub proof fn lemma_room(map: Seq<MapRegion>, path: Seq<usize>, r: int)
    requires
        simple(map, path),
        0 <= r < map.len(),
        !on_path(map, path, r),
    ensures
        path.len() < map.len(),
        simple(map, path.push(r as usize)),
{
    broadcast use vstd::set::group_set_axioms;

    let ints = Seq::new(path.len(), |k: int| path[k] as int);
    assert forall|i: int, j: int| 0 <= i < ints.len() && 0 <= j < ints.len() && i != j implies ints[i]
        != ints[j] by {
        if ints[i] == ints[j] {
            if i < j {
                assert(!map[path[i] as int].province.same(map[path[j] as int].province));
            } else {
                assert(!map[path[j] as int].province.same(map[path[i] as int].province));
            }
        }
    }
    ints.unique_seq_to_set();
    let all = set_int_range(0, map.len() as int);
    lemma_int_range(0, map.len() as int);
    let rest = all.remove(r);
    assert forall|x: int| ints.to_set().contains(x) implies rest.contains(x) by {
        let k = choose|k: int| 0 <= k < ints.len() && ints[k] == x;
        assert(path[k] < map.len());
        if x == r {
            assert(map[path[k] as int].province.same(map[r].province));
        }
    }
    lemma_len_subset(ints.to_set(), rest);
    let longer = path.push(r as usize);
    assert forall|i: int, j: int| 0 <= i < j < longer.len() implies !(
    #[trigger] map[longer[i] as int]).province.same((#[trigger] map[longer[j] as int]).province) by {
        if j == path.len() {
            assert(longer[i] == path[i]);
            assert(longer[j] == r);
            if map[path[i] as int].province.same(map[r].province) {
                assert(on_path(map, path, r));
            }
        } else {
            assert(longer[i] == path[i]);
            assert(longer[j] == path[j]);
        }
    }
}

/// All convoy routes that begin with the chain `path` and end next to
/// `target`, as lists of region indices. A chain whose last region borders
/// `target` for fleets is itself the only route; otherwise the routes are those
/// of each chain that one more fleet can join, taken in map order.
pub open spec fn sea_paths(
    map: Seq<MapRegion>,
    orders: Seq<Order>,
    path: Seq<usize>,
    target: Province,
) -> Seq<Seq<usize>>
    decreases map.len() - path.len(), 1nat, 0nat,
    when simple(map, path)
{
    if lists(map[path.last() as int].fleet_borders@, target) {
        seq![path]
    } else {
        sea_paths_from(map, orders, path, target, 0)
    }
}

/// The routes that extend the chain `path` by a region with index `r` or higher.
pub open spec fn sea_paths_from(
    map: Seq<MapRegion>,
    orders: Seq<Order>,
    path: Seq<usize>,
    target: Province,
    r: int,
) -> Seq<Seq<usize>>
    decreases map.len() - path.len(), 0nat, map.len() - r,
    when simple(map, path)
{
    if r < 0 || r >= map.len() {
        Seq::empty()
    } else {
        let first = if can_join(map, orders, path, target, r) {
            proof {
                lemma_room(map, path, r);
            }
            sea_paths(map, orders, path.push(r as usize), target)
        } else {
            Seq::empty()
        };
        first + sea_paths_from(map, orders, path, target, r + 1)
    }
}

/// Whether `route` is a convoy route to `target` that begins with the chain
/// `start`: it is a chain that visits no province twice, each region after
/// `start` holds a fleet that can join the chain before it, its last region
/// borders `target` for fleets, and no region before the last does.
pub open spec fn is_route(
    map: Seq<MapRegion>,
    orders: Seq<Order>,
    start: Seq<usize>,
    route: Seq<usize>,
    target: Province,
) -> bool {
    &&& start.len() <= route.len()
    &&& route.subrange(0, start.len() as int) == start
    &&& simple(map, route)
    &&& forall|k: int|
        start.len() <= k < route.len() ==> #[trigger] can_join(
            map,
            orders,
            route.subrange(0, k),
            target,
            route[k] as int,
        )
    &&& lists(map[route.last() as int].fleet_borders@, target)
    &&& forall|k: int|
        start.len() <= k < route.len() ==> !lists(
            (#[trigger] map[route[k - 1] as int]).fleet_borders@,
            target,
        )
}

/// A route that begins with a longer chain also begins with the shorter one.
proof fn lemma_route_from_shorter(
    map: Seq<MapRegion>,
    orders: Seq<Order>,
    path: Seq<usize>,
    r: int,
    route: Seq<usize>,
    target: Province,
)
    requires
        simple(map, path),
        0 <= r < map.len(),
        can_join(map, orders, path, target, r),
        !lists(map[path.last() as int].fleet_borders@, target),
        is_route(map, orders, path.push(r as usize), route, target),
    ensures
        is_route(map, orders, path, route, target),
{
    let longer = path.push(r as usize);
    let n = path.len() as int;
    assert(route.subrange(0, n) =~= longer.subrange(0, n));
    assert(longer.subrange(0, n) =~= path);
    assert(route[n] == longer[n]);
    assert(route[n - 1] == longer[n - 1]);
    assert forall|k: int| n <= k < route.len() implies #[trigger] can_join(
        map,
        orders,
        route.subrange(0, k),
        target,
        route[k] as int,
    ) by {
        if k == n {
            assert(route.subrange(0, k) == path);
        }
    }
    assert forall|k: int| n <= k < route.len() implies !lists(
        (#[trigger] map[route[k - 1] as int]).fleet_borders@,
        target,
    ) by {
        if k == n {
            assert(route[k - 1] == path.last());
        }
    }
}

/// Every route that the search finds is a convoy route.
pub proof fn law_routes_are_chains(
    map: Seq<MapRegion>,
    orders: Seq<Order>,
    path: Seq<usize>,
    target: Province,
)
    requires
        simple(map, path),
    ensures
        forall|i: int|
            0 <= i < sea_paths(map, orders, path, target).len() ==> is_route(
                map,
                orders,
                path,
                #[trigger] sea_paths(map, orders, path, target)[i],
                target,
            ),
    decreases map.len() - path.len(), 1nat, 0nat,
{
    if lists(map[path.last() as int].fleet_borders@, target) {
        assert(path.subrange(0, path.len() as int) =~= path);
        assert(sea_paths(map, orders, path, target) == seq![path]);
        assert(is_route(map, orders, path, path, target));
        assert(seq![path][0] == path);
    } else {
        lemma_routes_from(map, orders, path, target, 0);
        assert(sea_paths(map, orders, path, target) == sea_paths_from(
            map,
            orders,
            path,
            target,
            0,
        ));
    }
}

/// Every route that the search finds by extending a chain is a convoy route.
proof fn lemma_routes_from(
    map: Seq<MapRegion>,
    orders: Seq<Order>,
    path: Seq<usize>,
    target: Province,
    r: int,
)
    requires
        simple(map, path),
        !lists(map[path.last() as int].fleet_borders@, target),
        0 <= r,
    ensures
        forall|i: int|
            0 <= i < sea_paths_from(map, orders, path, target, r).len() ==> is_route(
                map,
                orders,
                path,
                #[trigger] sea_paths_from(map, orders, path, target, r)[i],
                target,
            ),
    decreases map.len() - path.len(), 0nat, map.len() - r,
{
    if r < map.len() {
        lemma_routes_from(map, orders, path, target, r + 1);
        let rest = sea_paths_from(map, orders, path, target, r + 1);
        if can_join(map, orders, path, target, r) {
            lemma_room(map, path, r);
            let longer = path.push(r as usize);
            law_routes_are_chains(map, orders, longer, target);
            let first = sea_paths(map, orders, longer, target);
            assert forall|i: int| 0 <= i < (first + rest).len() implies is_route(
                map,
                orders,
                path,
                #[trigger] (first + rest)[i],
                target,
            ) by {
                if i < first.len() {
                    lemma_route_from_shorter(map, orders, path, r, first[i], target);
                } else {
                    assert((first + rest)[i] == rest[i - first.len()]);
                }
            }
        } else {
            assert(Seq::<Seq<usize>>::empty() + rest =~= rest);
        }
    }
}

/// The search tries every region: a route found for a chain that region `x`
/// can join is among the routes found by extending the chain with `r` or a
/// region after it, when `x` is one of those.
proof fn lemma_found_from(
    map: Seq<MapRegion>,
    orders: Seq<Order>,
    path: Seq<usize>,
    target: Province,
    r: int,
    x: int,
    route: Seq<usize>,
)
    requires
        simple(map, path),
        0 <= r <= x < map.len(),
        can_join(map, orders, path, target, x),
        sea_paths(map, orders, path.push(x as usize), target).contains(route),
    ensures
        sea_paths_from(map, orders, path, target, r).contains(route),
    decreases x - r,
{
    let rest = sea_paths_from(map, orders, path, target, r + 1);
    let first = if can_join(map, orders, path, target, r) {
        sea_paths(map, orders, path.push(r as usize), target)
    } else {
        Seq::empty()
    };
    if r == x {
        let i = choose|i: int| 0 <= i < first.len() && first[i] == route;
        assert((first + rest)[i] == route);
    } else {
        lemma_found_from(map, orders, path, target, r + 1, x, route);
        let i = choose|i: int| 0 <= i < rest.len() && rest[i] == route;
        assert((first + rest)[first.len() + i] == route);
    }
}

/// The search finds every convoy route.
pub proof fn law_every_route_is_found(
    map: Seq<MapRegion>,
    orders: Seq<Order>,
    path: Seq<usize>,
    route: Seq<usize>,
    target: Province,
)
    requires
        simple(map, path),
        is_route(map, orders, path, route, target),
    ensures
        sea_paths(map, orders, path, target).contains(route),
    decreases route.len() - path.len(),
{
    let n = path.len() as int;
    if route.len() == n {
        assert(route =~= path);
        assert(seq![path][0] == route);
    } else {
        assert(route.subrange(0, n) == path);
        assert(route[n - 1] == route.subrange(0, n)[n - 1]);
        assert(!lists(map[route[n - 1] as int].fleet_borders@, target));
        let x = route[n] as int;
        assert(can_join(map, orders, route.subrange(0, n), target, route[n] as int));
        lemma_room(map, path, x);
        let longer = path.push(x as usize);
        assert(route.subrange(0, n + 1) =~= longer);
        law_every_route_is_found(map, orders, longer, route, target);
        lemma_found_from(map, orders, path, target, 0, x, route);
    }
}

/// The routes held by a vector of vectors.
pub open spec fn paths_view(v: Seq<Vec<usize>>) -> Seq<Seq<usize>> {
    Seq::new(v.len(), |i: int| v[i]@)
}

/// Whether every route is a non-empty list of region indices.
pub open spec fn paths_fit(paths: Seq<Seq<usize>>, n: int) -> bool {
    forall|i: int|
        0 <= i < paths.len() ==> (#[trigger] paths[i]).len() > 0 && forall|k: int|
            0 <= k < paths[i].len() ==> (#[trigger] paths[i][k]) < n
}

impl Stpsyr {
    /// Tells whether region `r` already lies on `path`.
    fn lies_on(&self, path: &Vec<usize>, r: usize) -> (b: bool)
        requires
            r < self.map.len(),
            forall|k: int| 0 <= k < path.len() ==> (#[trigger] path[k]) < self.map.len(),
        ensures
            b == on_path(self.map@, path@, r as int),
    {
        let mut k: usize = 0;
        while k < path.len()
            invariant
                k <= path.len(),
                r < self.map.len(),
                forall|j: int| 0 <= j < path.len() ==> (#[trigger] path[j]) < self.map.len(),
                forall|j: int|
                    0 <= j < k ==> !(#[trigger] self.map[path[j] as int]).province.same(
                        self.map[r as int].province,
                    ),
            decreases path.len() - k,
        {
            if self.map[path[k]].province.is(&self.map[r].province) {
                return true;
            }
            k += 1;
        }
        false
    }

    /// Tells whether the fleet in region `r` can extend the chain `path` towards `target`.
    fn joins(&self, path: &Vec<usize>, target: &Province, r: usize) -> (b: bool)
        requires
            r < self.map.len(),
            path.len() > 0,
            forall|k: int| 0 <= k < path.len() ==> (#[trigger] path[k]) < self.map.len(),
        ensures
            b == can_join(self.map@, self.orders@, path@, *target, r as int),
    {
        let here = &self.map[path[path.len() - 1]];
        let there = &self.map[r].province;
        if !contains_province(&here.fleet_borders, there) {
            return false;
        }
        if contains_province(&here.army_borders, there) {
            return false;
        }
        let q = Pick::Convoys {
            at: there.clone(),
            from: self.map[path[0]].province.clone(),
            to: target.clone(),
        };
        if self.select(&q).len() == 0 {
            return false;
        }
        !self.lies_on(path, r)
    }

    /// Enumerates the convoy routes that begin with `path` and end next to `target`.
    pub fn find_paths(&self, path: Vec<usize>, target: &Province) -> (r: Vec<Vec<usize>>)
        requires
            simple(self.map@, path@),
        ensures
            paths_view(r@) == sea_paths(self.map@, self.orders@, path@, *target),
            paths_fit(paths_view(r@), self.map.len() as int),
        decreases self.map.len() - path.len(),
    {
        let here = path[path.len() - 1];
        if contains_province(&self.map[here].fleet_borders, target) {
            let ghost p = path@;
            let out = vec![path];
            assert(paths_view(out@) =~= seq![p]);
            return out;
        }
        let mut out: Vec<Vec<usize>> = Vec::new();
        let mut r: usize = 0;
        assert(paths_view(out@) =~= Seq::<Seq<usize>>::empty());
        while r < self.map.len()
            invariant
                r <= self.map.len(),
                simple(self.map@, path@),
                paths_view(out@) + sea_paths_from(self.map@, self.orders@, path@, *target, r as int)
                    == sea_paths_from(self.map@, self.orders@, path@, *target, 0),
                paths_fit(paths_view(out@), self.map.len() as int),
            decreases self.map.len() - r,
        {
            let ghost before = paths_view(out@);
            let ghost rest = sea_paths_from(self.map@, self.orders@, path@, *target, r as int + 1);
            if self.joins(&path, target, r) {
                proof {
                    lemma_room(self.map@, path@, r as int);
                }
                let mut next = path.clone();
                next.push(r);
                assert(next@ =~= path@.push(r));
                let mut sub = self.find_paths(next, target);
                let ghost found = paths_view(sub@);
                out.append(&mut sub);
                assert(paths_view(out@) =~= before + found);
                assert((before + found) + rest =~= before + (found + rest));
            } else {
                assert((before + Seq::<Seq<usize>>::empty()) + rest =~= before + (Seq::<
                    Seq<usize>,
                >::empty() + rest));
                assert(before + Seq::<Seq<usize>>::empty() =~= before);
            }
            r += 1;
        }
        assert(paths_view(out@) + Seq::<Seq<usize>>::empty() =~= paths_view(out@));
        out
    }
}

} // verus!
