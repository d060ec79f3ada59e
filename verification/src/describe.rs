//! Short texts and colours for showing a game.

use vstd::prelude::*;
use crate::text::{chars_of, lowercase, string_of};
use crate::types::{Action, MapRegion, Order, Power, Province, Unit, UnitType};

verus! {

/// The name of a kind of unit.
pub open spec fn kind_name(t: UnitType) -> Seq<char> {
    match t {
        UnitType::Army => "Army"@,
        UnitType::Fleet => "Fleet"@,
    }
}

/// The text for a unit: its kind, a blank, and the name of its owner.
pub open spec fn unit_text(u: Unit) -> Seq<char> {
    kind_name(u.unit_type) + seq![' '] + u.owner.name@
}

/// The text for a coast: nothing when there is none, otherwise `lead`, the
/// letter of the coast, `c` and `tail`.
pub open spec fn coast_text(lead: Seq<char>, coast: Option<char>, tail: Seq<char>) -> Seq<char> {
    match coast {
        Some(c) => lead + seq![c, 'c'] + tail,
        None => Seq::empty(),
    }
}

/// The text for a province: its name, then its coast as in `/sc`, then the
/// coast that a border starts from as in ` [from sc]`.
pub open spec fn province_text(p: Province) -> Seq<char> {
    p.name@ + coast_text(seq!['/'], p.coast, Seq::empty()) + coast_text(
        " [from "@,
        p.from_coast,
        seq![']'],
    )
}

/// The text for a region: its province, a `*` for a supply centre, the owner
/// in round brackets and the unit in square brackets.
pub open spec fn region_text(r: MapRegion) -> Seq<char> {
    province_text(r.province) + (if r.sc {
        seq!['*']
    } else {
        Seq::empty()
    }) + (match r.owner {
        Some(o) => " ("@ + o.name@ + seq![')'],
        None => Seq::empty(),
    }) + (match r.unit {
        Some(u) => " ["@ + unit_text(u) + seq![']'],
        None => Seq::empty(),
    })
}

/// The text for a place in an order: the name of the province, then its coast
/// as in `/sc`.
pub open spec fn place_text(p: Province) -> Seq<char> {
    p.name@ + coast_text(seq!['/'], p.coast, Seq::empty())
}

/// The text of an order for the unit in `province`, in the form in which
/// orders are read: `par h`, `par - bur`, `lon - bel vc`, `par s mar`,
/// `par s mar - bur`, `nth c lon - bel`.
pub open spec fn order_text(province: Province, action: Action) -> Seq<char> {
    place_text(province) + match action {
        Action::Hold => " h"@,
        Action::Move { to, convoyed } => " - "@ + place_text(to) + if convoyed {
            " vc"@
        } else {
            Seq::empty()
        },
        Action::SupportHold { to } => " s "@ + place_text(to),
        Action::SupportMove { from, to } => " s "@ + place_text(from) + " - "@ + place_text(to),
        Action::Convoy { from, to } => " c "@ + place_text(from) + " - "@ + place_text(to),
    }
}

/// Whether the region belongs to the power called `name`.
pub open spec fn owned_by(r: MapRegion, name: Seq<char>) -> bool {
    r.owner is Some && r.owner->0@ == lowercase(name)
}

/// The colour of a region on a drawing of the map, as six hexadecimal digits:
/// one colour for the sea, one for each great power, one for land that belongs
/// to none of them.
pub open spec fn colour_of(r: MapRegion) -> Seq<char> {
    if r.army_borders.len() == 0 {
        "c5dfea"@
    } else if owned_by(r, "Russia"@) {
        "a87e9f"@
    } else if owned_by(r, "Austria"@) {
        "c48f85"@
    } else if owned_by(r, "Turkey"@) {
        "eaeaaf"@
    } else if owned_by(r, "Italy"@) {
        "a4c499"@
    } else if owned_by(r, "France"@) {
        "79afc6"@
    } else if owned_by(r, "Germany"@) {
        "a08a75"@
    } else if owned_by(r, "England"@) {
        "efc4e4"@
    } else {
        "e2c69e"@
    }
}

/// Tells whether the region belongs to the power called `name`.
fn is_owned_by(r: &MapRegion, name: &str) -> (b: bool)
    ensures
        b == owned_by(*r, name@),
{
    match &r.owner {
        Some(p) => p.same(&Power::named(name)),
        None => false,
    }
}

/// Adds the characters of `s` to `v`.
fn extend(v: &mut Vec<char>, s: &str)
    ensures
        final(v)@ == old(v)@ + s@,
{
    let mut t = chars_of(s);
    v.append(&mut t);
}

/// Adds the text for a coast to `v`.
fn extend_coast(v: &mut Vec<char>, lead: &str, coast: Option<char>, tail: &str)
    ensures
        final(v)@ == old(v)@ + coast_text(lead@, coast, tail@),
{
    match coast {
        Some(c) => {
            extend(v, lead);
            v.push(c);
            v.push('c');
            extend(v, tail);
            assert(v@ =~= old(v)@ + (lead@ + seq![c, 'c'] + tail@));
        },
        None => {
            assert(v@ =~= old(v)@ + Seq::<char>::empty());
        },
    }
}

/// Adds the text for a place in an order to `v`.
fn extend_place(v: &mut Vec<char>, p: &Province)
    ensures
        final(v)@ == old(v)@ + place_text(*p),
{
    extend(v, p.name.as_str());
    proof {
        reveal_strlit("");
        reveal_strlit("/");
        assert("/"@ =~= seq!['/']);
        assert(""@ =~= Seq::<char>::empty());
    }
    extend_coast(v, "/", p.coast, "");
    assert(v@ =~= old(v)@ + (p.name@ + coast_text(seq!['/'], p.coast, Seq::empty())));
}

impl Order {
    /// The text of the order, such as `par - bur`, in the form in which orders
    /// are read.
    pub fn label(&self) -> (r: String)
        ensures
            r@ == order_text(self.province, self.action),
    {
        let mut v: Vec<char> = Vec::new();
        extend_place(&mut v, &self.province);
        let ghost placed = v@;
        assert(placed =~= place_text(self.province));
        match &self.action {
            Action::Hold => {
                extend(&mut v, " h");
            },
            Action::Move { to, convoyed } => {
                extend(&mut v, " - ");
                extend_place(&mut v, to);
                if *convoyed {
                    extend(&mut v, " vc");
                }
                assert(v@ =~= placed + (" - "@ + place_text(*to) + if *convoyed {
                    " vc"@
                } else {
                    Seq::empty()
                }));
            },
            Action::SupportHold { to } => {
                extend(&mut v, " s ");
                extend_place(&mut v, to);
                assert(v@ =~= placed + (" s "@ + place_text(*to)));
            },
            Action::SupportMove { from, to } => {
                extend(&mut v, " s ");
                extend_place(&mut v, from);
                extend(&mut v, " - ");
                extend_place(&mut v, to);
                assert(v@ =~= placed + (" s "@ + place_text(*from) + " - "@ + place_text(*to)));
            },
            Action::Convoy { from, to } => {
                extend(&mut v, " c ");
                extend_place(&mut v, from);
                extend(&mut v, " - ");
                extend_place(&mut v, to);
                assert(v@ =~= placed + (" c "@ + place_text(*from) + " - "@ + place_text(*to)));
            },
        }
        string_of(&v)
    }
}

impl Unit {
    /// The text for the unit, such as `Army Italy`.
    pub fn label(&self) -> (r: String)
        ensures
            r@ == unit_text(*self),
    {
        let mut v: Vec<char> = Vec::new();
        match self.unit_type {
            UnitType::Army => extend(&mut v, "Army"),
            UnitType::Fleet => extend(&mut v, "Fleet"),
        }
        v.push(' ');
        extend(&mut v, self.owner.name.as_str());
        assert(v@ =~= unit_text(*self));
        string_of(&v)
    }
}

impl Province {
    /// The text for the province, such as `stp/sc`.
    pub fn label(&self) -> (r: String)
        ensures
            r@ == province_text(*self),
    {
        let mut v: Vec<char> = chars_of(self.name.as_str());
        proof {
            reveal_strlit("");
            reveal_strlit("/");
            reveal_strlit("]");
        }
        extend_coast(&mut v, "/", self.coast, "");
        extend_coast(&mut v, " [from ", self.from_coast, "]");
        assert("/"@ =~= seq!['/']);
        assert("]"@ =~= seq![']']);
        assert(""@ =~= Seq::<char>::empty());
        string_of(&v)
    }
}

impl MapRegion {
    /// The text for the region, such as `stp/sc* (Russia) [Fleet Russia]`.
    pub fn label(&self) -> (r: String)
        ensures
            r@ == region_text(*self),
    {
        let mut v: Vec<char> = chars_of(self.province.label().as_str());
        if self.sc {
            v.push('*');
        }
        let ghost marked = v@;
        assert(marked =~= province_text(self.province) + (if self.sc {
            seq!['*']
        } else {
            Seq::empty()
        }));
        match &self.owner {
            Some(o) => {
                extend(&mut v, " (");
                extend(&mut v, o.name.as_str());
                v.push(')');
                assert(v@ =~= marked + (" ("@ + o.name@ + seq![')']));
            },
            None => {
                assert(v@ =~= marked + Seq::<char>::empty());
            },
        }
        let ghost owned = v@;
        match &self.unit {
            Some(u) => {
                extend(&mut v, " [");
                extend(&mut v, u.label().as_str());
                v.push(']');
                assert(v@ =~= owned + (" ["@ + unit_text(*u) + seq![']']));
            },
            None => {
                assert(v@ =~= owned + Seq::<char>::empty());
            },
        }
        string_of(&v)
    }

    /// The colour of the region on a drawing of the map.
    pub fn colour(&self) -> (r: &'static str)
        ensures
            r@ == colour_of(*self),
    {
        if self.army_borders.len() == 0 {
            "c5dfea"
        } else if is_owned_by(self, "Russia") {
            "a87e9f"
        } else if is_owned_by(self, "Austria") {
            "c48f85"
        } else if is_owned_by(self, "Turkey") {
            "eaeaaf"
        } else if is_owned_by(self, "Italy") {
            "a4c499"
        } else if is_owned_by(self, "France") {
            "79afc6"
        } else if is_owned_by(self, "Germany") {
            "a08a75"
        } else if is_owned_by(self, "England") {
            "efc4e4"
        } else {
            "e2c69e"
        }
    }
}

} // verus!
