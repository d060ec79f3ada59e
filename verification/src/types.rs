//! The data of a game: powers, provinces, units, regions and the three kinds of order.

use vstd::prelude::*;
use crate::text::{
    chars_of, find_char, first_at, lemma_first_at, lowercase, slice_chars, string_of, to_lowercase,
};

verus! {

/// The two kinds of unit.
#[derive(Clone, Copy, Debug, PartialEq, Eq, Structural)]
pub enum UnitType {
    Army,
    Fleet,
}

/// A player. Two powers are the same when their names agree up to letter case.
#[derive(Debug)]
pub struct Power {
    pub name: String,
}

impl View for Power {
    type V = Seq<char>;

    /// A power is identified by its name in lower case.
    open spec fn view(&self) -> Seq<char> {
        lowercase(self.name@)
    }
}

impl Clone for Power {
    fn clone(&self) -> (r: Self)
        ensures
            r == *self,
    {
        Power { name: self.name.clone() }
    }
}

impl Power {
    /// Whether two powers are the same player.
    pub fn same(&self, other: &Power) -> (r: bool)
        ensures
            r == (self@ == other@),
    {
        let a = to_lowercase(self.name.as_str());
        let b = to_lowercase(other.name.as_str());
        a == b
    }

    /// The power with the given name.
    pub fn named(name: &str) -> (r: Power)
        ensures
            r.name@ == name@,
    {
        Power { name: name.to_owned() }
    }
}

/// Whether an optional power is present and is the player `p`.
pub open spec fn is_power(a: Option<Power>, p: Power) -> bool {
    a is Some && a->0@ == p@
}

/// What a province denotes: its name, the coast it refers to, and, for an entry
/// of a fleet border list, the coast a fleet has to be on to use that border.
pub ghost struct ProvinceView {
    pub name: Seq<char>,
    pub coast: Option<char>,
    pub from_coast: Option<char>,
}

/// A place on the map, possibly with a coast. Two provinces are the same place
/// when their names are equal; coasts are compared only by [`Province::coast_eq`].
#[derive(Debug)]
pub struct Province {
    pub name: String,
    pub coast: Option<char>,
    pub from_coast: Option<char>,
}

impl View for Province {
    type V = ProvinceView;

    open spec fn view(&self) -> ProvinceView {
        ProvinceView { name: self.name@, coast: self.coast, from_coast: self.from_coast }
    }
}

impl Clone for Province {
    fn clone(&self) -> (r: Self)
        ensures
            r == *self,
    {
        Province { name: self.name.clone(), coast: self.coast, from_coast: self.from_coast }
    }
}

/// The province that a text such as `"stp"` or `"stp/sc"` denotes: the name is
/// what stands before the first `/`, the coast is the character right after it.
pub open spec fn province_of(s: Seq<char>) -> ProvinceView {
    let k = first_at(s, '/', 0);
    ProvinceView {
        name: s.subrange(0, k),
        coast: if k + 1 < s.len() {
            Some(s[k + 1])
        } else {
            None
        },
        from_coast: None,
    }
}

/// Whether two optional coasts are the same.
pub fn coast_same(a: Option<char>, b: Option<char>) -> (r: bool)
    ensures
        r == (a == b),
{
    match (a, b) {
        (None, None) => true,
        (Some(x), Some(y)) => x == y,
        _ => false,
    }
}

impl Province {
    /// Whether two provinces are the same place, whatever their coasts.
    pub open spec fn same(self, other: Province) -> bool {
        self.name@ == other.name@
    }

    /// Compares the names of two provinces.
    pub fn is(&self, other: &Province) -> (r: bool)
        ensures
            r == self.same(*other),
    {
        self.name == other.name
    }

    /// Compares names and coasts.
    pub fn coast_eq(&self, other: &Province) -> (r: bool)
        ensures
            r == (self.name@ == other.name@ && self.coast == other.coast),
    {
        self.name == other.name && coast_same(self.coast, other.coast)
    }

    /// Reads a province from a text such as `"stp"` or `"stp/sc"`.
    pub fn parse(s: &str) -> (r: Province)
        ensures
            r@ == province_of(s@),
    {
        let v = chars_of(s);
        Province::read(&v)
    }

    /// Reads a province from the characters of a text such as `"stp/sc"`.
    pub fn read(v: &Vec<char>) -> (r: Province)
        ensures
            r@ == province_of(v@),
    {
        let k = find_char(v, '/');
        proof {
            lemma_first_at(v@, '/', 0);
        }
        let name = string_of(&slice_chars(v, 0, k));
        let coast = if k < v.len() && k + 1 < v.len() {
            Some(v[k + 1])
        } else {
            None
        };
        Province { name, coast, from_coast: None }
    }
}

/// A unit: who owns it and of what kind it is.
#[derive(Debug)]
pub struct Unit {
    pub owner: Power,
    pub unit_type: UnitType,
}

impl Clone for Unit {
    fn clone(&self) -> (r: Self)
        ensures
            r == *self,
    {
        Unit { owner: self.owner.clone(), unit_type: self.unit_type }
    }
}

/// Copies an optional unit.
pub fn clone_unit(u: &Option<Unit>) -> (r: Option<Unit>)
    ensures
        r == *u,
{
    match u {
        Some(x) => Some(x.clone()),
        None => None,
    }
}

/// What a region holds, with texts in place of strings.
pub ghost struct RegionView {
    pub province: ProvinceView,
    pub sc: bool,
    pub owner: Option<Seq<char>>,
    pub home_power: Option<Seq<char>>,
    pub unit: Option<(Seq<char>, UnitType)>,
    pub fleet_borders: Seq<ProvinceView>,
    pub army_borders: Seq<ProvinceView>,
}

/// The name of an optional power.
pub open spec fn name_of(p: Option<Power>) -> Option<Seq<char>> {
    match p {
        Some(p) => Some(p.name@),
        None => None,
    }
}

/// What a list of provinces holds.
pub open spec fn provinces_view(v: Seq<Province>) -> Seq<ProvinceView> {
    Seq::new(v.len(), |i: int| v[i]@)
}

/// A location on the map: the province, whether it is a supply centre, who owns
/// it, whose home it is, the unit standing in it, and its borders for fleets
/// and for armies.
#[derive(Debug)]
pub struct MapRegion {
    pub province: Province,
    pub sc: bool,
    pub owner: Option<Power>,
    pub home_power: Option<Power>,
    pub unit: Option<Unit>,
    pub fleet_borders: Vec<Province>,
    pub army_borders: Vec<Province>,
}

impl View for MapRegion {
    type V = RegionView;

    open spec fn view(&self) -> RegionView {
        RegionView {
            province: self.province@,
            sc: self.sc,
            owner: name_of(self.owner),
            home_power: name_of(self.home_power),
            unit: match self.unit {
                Some(u) => Some((u.owner.name@, u.unit_type)),
                None => None,
            },
            fleet_borders: provinces_view(self.fleet_borders@),
            army_borders: provinces_view(self.army_borders@),
        }
    }
}

/// What a map holds.
pub open spec fn regions_view(map: Seq<MapRegion>) -> Seq<RegionView> {
    Seq::new(map.len(), |i: int| map[i]@)
}

/// How far the adjudication of an order has come.
#[allow(non_camel_case_types)]
#[derive(Clone, Copy, Debug, PartialEq, Eq, Structural)]
pub enum OrderState {
    UNRESOLVED,
    GUESSING,
    RESOLVED,
}

/// What an order asks a unit to do.
#[derive(Debug)]
pub enum Action {
    Hold,
    Move { to: Province, convoyed: bool },
    SupportHold { to: Province },
    SupportMove { from: Province, to: Province },
    Convoy { from: Province, to: Province },
}

impl Clone for Action {
    fn clone(&self) -> (r: Self)
        ensures
            r == *self,
    {
        match self {
            Action::Hold => Action::Hold,
            Action::Move { to, convoyed } => Action::Move { to: to.clone(), convoyed: *convoyed },
            Action::SupportHold { to } => Action::SupportHold { to: to.clone() },
            Action::SupportMove { from, to } => Action::SupportMove {
                from: from.clone(),
                to: to.clone(),
            },
            Action::Convoy { from, to } => Action::Convoy { from: from.clone(), to: to.clone() },
        }
    }
}

/// An order of a movement phase, with the two fields the resolver writes:
/// `resolution` (whether the order succeeds) and `state`.
#[derive(Debug)]
pub struct Order {
    pub owner: Power,
    pub province: Province,
    pub action: Action,
    pub resolution: bool,
    pub state: OrderState,
    pub id: usize,
}

impl Clone for Order {
    fn clone(&self) -> (r: Self)
        ensures
            r == *self,
    {
        Order {
            owner: self.owner.clone(),
            province: self.province.clone(),
            action: self.action.clone(),
            resolution: self.resolution,
            state: self.state,
            id: self.id,
        }
    }
}

/// What a dislodged unit is told to do.
#[derive(Debug)]
pub enum RetreatAction {
    Disband,
    Move { to: Province },
}

/// A retreat order for the unit dislodged from `province`.
#[derive(Debug)]
pub struct Retreat {
    pub owner: Power,
    pub province: Province,
    pub action: RetreatAction,
}

/// What an adjustment order asks for.
#[derive(Clone, Copy, Debug, PartialEq, Eq, Structural)]
pub enum AdjustAction {
    Disband,
    Build { unit_type: UnitType },
}

/// An order to build a unit in `province` or to disband the one there.
#[derive(Debug)]
pub struct Adjust {
    pub owner: Power,
    pub province: Province,
    pub action: AdjustAction,
}

/// The phases of a game year.
#[derive(Clone, Copy, Debug, PartialEq, Eq, Structural)]
pub enum Phase {
    SpringDiplomacy,
    SpringRetreats,
    FallDiplomacy,
    FallRetreats,
    Builds,
}

/// A game: the board, the orders submitted for the current phase, and what the
/// resolver and the phases hand on to each other.
#[derive(Debug)]
pub struct Stpsyr {
    /// The regions of the map with their units.
    pub map: Vec<MapRegion>,
    /// The orders of the current movement phase, in the order of submission.
    pub orders: Vec<Order>,
    /// The retreat orders of the current retreat phase.
    pub retreats: Vec<Retreat>,
    /// The adjustment orders of the current build phase.
    pub adjusts: Vec<Adjust>,
    /// The dependency stack of the resolver: the orders whose guesses an
    /// adjudication in progress leans on.
    pub dependencies: Vec<usize>,
    /// The units dislodged in the last movement phase, each with the province
    /// it was driven from.
    pub dislodged: Vec<(Province, Unit)>,
    /// The provinces in which moves of the last movement phase failed; no
    /// province is listed twice.
    pub contested: Vec<Province>,
    pub phase: Phase,
    pub year: i32,
}

} // verus!
