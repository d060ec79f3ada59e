//! Looking things up on the board.

use vstd::prelude::*;
use crate::types::{clone_unit, MapRegion, Province, Stpsyr, Unit};

verus! {

/// Whether a list of provinces names the place `p`.
pub open spec fn lists(list: Seq<Province>, p: Province) -> bool {
    exists|i: int| 0 <= i < list.len() && #[trigger] list[i].same(p)
}

/// Whether a list of provinces names no place twice.
pub open spec fn distinct(list: Seq<Province>) -> bool {
    forall|i: int, j: int|
        0 <= i < j < list.len() ==> !(#[trigger] list[i]).same(#[trigger] list[j])
}

/// The index of the first region at or after `i` whose province is `p`, or the
/// number of regions when there is none.
pub open spec fn region_from(map: Seq<MapRegion>, p: Province, i: int) -> int
    decreases map.len() - i,
{
    if i < 0 || i >= map.len() {
        map.len() as int
    } else if map[i].province.same(p) {
        i
    } else {
        region_from(map, p, i + 1)
    }
}

/// The index of the region of province `p`, if the map has one.
pub open spec fn region_of(map: Seq<MapRegion>, p: Province) -> Option<usize> {
    let k = region_from(map, p, 0);
    if k < map.len() {
        Some(k as usize)
    } else {
        None
    }
}

/// The unit standing in province `p`, if the map has the province and a unit is there.
pub open spec fn unit_at(map: Seq<MapRegion>, p: Province) -> Option<Unit> {
    match region_of(map, p) {
        Some(k) => map[k as int].unit,
        None => None,
    }
}

/// `region_from` returns the first match and nothing before it matches.
pub proof fn lemma_region_from(map: Seq<MapRegion>, p: Province, i: int)
    requires
        0 <= i <= map.len(),
    ensures
        i <= region_from(map, p, i) <= map.len(),
        region_from(map, p, i) < map.len() ==> map[region_from(map, p, i)].province.same(p),
        forall|j: int| i <= j < region_from(map, p, i) ==> !(#[trigger] map[j]).province.same(p),
    decreases map.len() - i,
{
    if i < map.len() && !map[i].province.same(p) {
        lemma_region_from(map, p, i + 1);
    }
}

/// A region is found exactly when some region has that province.
pub proof fn lemma_region_of(map: Seq<MapRegion>, p: Province)
    requires
        map.len() <= usize::MAX,
    ensures
        region_of(map, p) is Some <==> exists|j: int|
            0 <= j < map.len() && (#[trigger] map[j]).province.same(p),
        region_of(map, p) is Some ==> region_of(map, p)->0 < map.len() && map[region_of(
            map,
            p,
        )->0 as int].province.same(p),
{
    lemma_region_from(map, p, 0);
}

/// Tells whether `list` names the place `p`.
pub fn contains_province(list: &Vec<Province>, p: &Province) -> (r: bool)
    ensures
        r == lists(list@, *p),
{
    let mut i: usize = 0;
    while i < list.len()
        invariant
            i <= list.len(),
            forall|j: int| 0 <= j < i ==> !(#[trigger] list@[j]).same(*p),
        decreases list.len() - i,
    {
        if list[i].is(p) {
            return true;
        }
        i += 1;
    }
    false
}

impl Stpsyr {
    /// The position in the map of the region of `province`.
    pub fn region_index(&self, province: &Province) -> (r: Option<usize>)
        ensures
            r == region_of(self.map@, *province),
            r is Some ==> r->0 < self.map.len() && self.map[r->0 as int].province.same(*province),
    {
        let mut i: usize = 0;
        while i < self.map.len()
            invariant
                i <= self.map.len(),
                region_from(self.map@, *province, 0) == region_from(self.map@, *province, i as int),
            decreases self.map.len() - i,
        {
            if self.map[i].province.is(province) {
                return Some(i);
            }
            i += 1;
        }
        None
    }

    /// The region of `province`, if the map has it.
    pub fn get_region(&self, province: &Province) -> (r: Option<&MapRegion>)
        ensures
            match region_of(self.map@, *province) {
                Some(k) => r == Some(&self.map[k as int]),
                None => r is None,
            },
    {
        match self.region_index(province) {
            Some(k) => Some(&self.map[k]),
            None => None,
        }
    }

    /// The unit currently standing in `province`.
    pub fn get_unit(&self, province: &Province) -> (r: Option<Unit>)
        ensures
            r == unit_at(self.map@, *province),
    {
        match self.region_index(province) {
            Some(k) => clone_unit(&self.map[k].unit),
            None => None,
        }
    }
}

} // verus!
