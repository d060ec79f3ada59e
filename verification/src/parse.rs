//! Orders written as text.
//!
//! Each line holds one order: the province of the unit, then what it is to do.
//! `A Par-Bur` or `par move bur` is a move, `A Lon-Bel VC` a move by convoy,
//! `A Par S A Mar-Bur` a support for a move, `A Par S Mar` a support to hold,
//! `F Nth C A Lon-Bel` a convoy. A line that names only a province, or asks it
//! to hold, submits nothing: a unit without an order holds. Letter case does not
//! matter; a coast is written as in `spa/sc` or `spa (south coast)`.

use vstd::prelude::*;
use vstd::utf8::encode_utf8;
use crate::orders::{diplomacy, submitted};
use crate::text::{
    chars_of, lowercase, pieces, reads, split, string_of, texts, to_lowercase, Cut,
};
use crate::types::{
    province_of, Action, MapRegion, Order, Power, Province, ProvinceView, Stpsyr,
};

verus! {

/// What an action holds, with texts in place of strings.
pub ghost enum ActionView {
    Hold,
    Move { to: ProvinceView, convoyed: bool },
    SupportHold { to: ProvinceView },
    SupportMove { from: ProvinceView, to: ProvinceView },
    Convoy { from: ProvinceView, to: ProvinceView },
}

impl View for Action {
    type V = ActionView;

    open spec fn view(&self) -> ActionView {
        match *self {
            Action::Hold => ActionView::Hold,
            Action::Move { to, convoyed } => ActionView::Move { to: to@, convoyed },
            Action::SupportHold { to } => ActionView::SupportHold { to: to@ },
            Action::SupportMove { from, to } => ActionView::SupportMove { from: from@, to: to@ },
            Action::Convoy { from, to } => ActionView::Convoy { from: from@, to: to@ },
        }
    }
}

/// The text `s` from position `i` on, with `/` in place of every `(`.
pub open spec fn opened(s: Seq<char>) -> Seq<char> {
    Seq::new(s.len(), |i: int| if s[i] == '(' { '/' } else { s[i] })
}

/// The text `s` from position `i` on, with every blank that stands right
/// before a `/` left out.
pub open spec fn joined_from(s: Seq<char>, i: int) -> Seq<char>
    decreases s.len() - i,
{
    if i < 0 || i >= s.len() {
        Seq::empty()
    } else if s[i] == ' ' && i + 1 < s.len() && s[i + 1] == '/' {
        seq!['/'] + joined_from(s, i + 2)
    } else {
        seq![s[i]] + joined_from(s, i + 1)
    }
}

/// Whether a word carries no meaning in an order.
pub open spec fn is_filler(t: Seq<char>) -> bool {
    t == "army"@ || t == "fleet"@ || t == "hold"@ || t == "holds"@ || t == "stand"@ || t
        == "stands"@ || t == "move"@ || t == "moves"@ || t == "the"@ || t == "coast"@ || t
        == "via"@
}

/// Whether a piece of a line is a word of the order: it takes at least three
/// bytes in UTF-8 or is one of `s`, `c` and `vc`, and it is no filler.
pub open spec fn is_word(t: Seq<char>) -> bool {
    (encode_utf8(t).len() >= 3 || t == "s"@ || t == "c"@ || t == "vc"@) && !is_filler(t)
}

/// The short form of a word.
pub open spec fn short_form(t: Seq<char>) -> Seq<char> {
    if t == "support"@ || t == "supports"@ {
        "s"@
    } else if t == "convoy"@ || t == "convoys"@ || t == "vc"@ {
        "c"@
    } else if t == "north"@ {
        "nc"@
    } else if t == "south"@ {
        "sc"@
    } else if t == "east"@ {
        "ec"@
    } else if t == "west"@ {
        "wc"@
    } else {
        t
    }
}

/// The words among the first `n` pieces, in short form.
pub open spec fn words_upto(ps: Seq<Seq<char>>, n: int) -> Seq<Seq<char>>
    decreases n,
{
    if n <= 0 {
        Seq::empty()
    } else {
        let before = words_upto(ps, n - 1);
        if is_word(ps[n - 1]) {
            before.push(short_form(ps[n - 1]))
        } else {
            before
        }
    }
}

/// The words of a line: the line is put in lower case, `(` and a blank before
/// `/` are read as the `/` of a coast, the line is cut at everything that is
/// neither a lower-case letter nor a `/`, and the words among the pieces are
/// taken in short form.
pub open spec fn words_of(line: Seq<char>) -> Seq<Seq<char>> {
    let ps = pieces(joined_from(opened(lowercase(line)), 0), Cut::NonWord);
    words_upto(ps, ps.len() as int)
}

/// The order that a line's words spell: the province of the unit and what it
/// is to do. Nothing when the words spell no order to submit.
pub open spec fn order_of(ws: Seq<Seq<char>>) -> Option<(ProvinceView, ActionView)> {
    if ws.len() < 2 {
        None
    } else if ws[1] == "s"@ {
        if ws.len() == 2 {
            None
        } else if ws.len() == 3 {
            Some((province_of(ws[0]), ActionView::SupportHold { to: province_of(ws[2]) }))
        } else {
            Some(
                (
                    province_of(ws[0]),
                    ActionView::SupportMove { from: province_of(ws[2]), to: province_of(ws[3]) },
                ),
            )
        }
    } else if ws[1] == "c"@ {
        if ws.len() < 4 {
            None
        } else {
            Some(
                (
                    province_of(ws[0]),
                    ActionView::Convoy { from: province_of(ws[2]), to: province_of(ws[3]) },
                ),
            )
        }
    } else {
        Some(
            (
                province_of(ws[0]),
                ActionView::Move {
                    to: province_of(ws[1]),
                    convoyed: ws.len() >= 3 && ws[2] == "c"@,
                },
            ),
        )
    }
}

/// The orders that the first `n` lines spell.
pub open spec fn orders_upto(lines: Seq<Seq<char>>, n: int) -> Seq<(ProvinceView, ActionView)>
    decreases n,
{
    if n <= 0 {
        Seq::empty()
    } else {
        let before = orders_upto(lines, n - 1);
        match order_of(words_of(lines[n - 1])) {
            Some(o) => before.push(o),
            None => before,
        }
    }
}

/// The orders that a text spells, one per line.
pub open spec fn orders_in(text: Seq<char>) -> Seq<(ProvinceView, ActionView)> {
    let lines = pieces(text, Cut::Line);
    orders_upto(lines, lines.len() as int)
}

/// What a list of orders to submit holds.
pub open spec fn orders_view(v: Seq<(Province, Action)>) -> Seq<(ProvinceView, ActionView)> {
    Seq::new(v.len(), |i: int| (v[i].0@, v[i].1@))
}

/// The order list after `owner` has submitted the first `n` orders of `list`.
pub open spec fn submitted_upto(
    map: Seq<MapRegion>,
    orders: Seq<Order>,
    owner: Power,
    list: Seq<(Province, Action)>,
    n: int,
) -> Seq<Order>
    decreases n,
{
    if n <= 0 {
        orders
    } else {
        submitted(
            map,
            submitted_upto(map, orders, owner, list, n - 1),
            owner,
            list[n - 1].0,
            list[n - 1].1,
        )
    }
}

/// Reads every `(` as `/`.
fn open_coasts(v: &Vec<char>) -> (r: Vec<char>)
    ensures
        r@ == opened(v@),
{
    let mut out: Vec<char> = Vec::new();
    let mut i: usize = 0;
    while i < v.len()
        invariant
            i <= v.len(),
            out.len() == i,
            forall|j: int| 0 <= j < i ==> out@[j] == opened(v@)[j],
        decreases v.len() - i,
    {
        out.push(if v[i] == '(' { '/' } else { v[i] });
        i += 1;
    }
    assert(out@ =~= opened(v@));
    out
}

/// Leaves out every blank that stands right before a `/`.
fn join_coasts(v: &Vec<char>) -> (r: Vec<char>)
    ensures
        r@ == joined_from(v@, 0),
{
    let mut out: Vec<char> = Vec::new();
    let mut i: usize = 0;
    assert(out@ + joined_from(v@, 0) =~= joined_from(v@, 0));
    while i < v.len()
        invariant
            i <= v.len(),
            out@ + joined_from(v@, i as int) == joined_from(v@, 0),
        decreases v.len() - i,
    {
        let ghost before = out@;
        if v[i] == ' ' && i + 1 < v.len() && v[i + 1] == '/' {
            out.push('/');
            assert((before + seq!['/']) + joined_from(v@, i as int + 2) =~= before + (seq!['/']
                + joined_from(v@, i as int + 2)));
            assert(out@ =~= before + seq!['/']);
            i += 2;
        } else {
            out.push(v[i]);
            assert((before + seq![v@[i as int]]) + joined_from(v@, i as int + 1) =~= before + (
            seq![v@[i as int]] + joined_from(v@, i as int + 1)));
            assert(out@ =~= before + seq![v@[i as int]]);
            i += 1;
        }
    }
    assert(out@ + Seq::<char>::empty() =~= out@);
    out
}

/// Tells whether a word carries no meaning in an order.
fn filler(t: &Vec<char>) -> (r: bool)
    ensures
        r == is_filler(t@),
{
    reads(t, "army") || reads(t, "fleet") || reads(t, "hold") || reads(t, "holds") || reads(
        t,
        "stand",
    ) || reads(t, "stands") || reads(t, "move") || reads(t, "moves") || reads(t, "the") || reads(
        t,
        "coast",
    ) || reads(t, "via")
}

/// Tells whether a piece of a line is a word of the order.
fn word(t: &Vec<char>) -> (r: bool)
    ensures
        r == is_word(t@),
{
    let text = string_of(t);
    let bytes = text.as_str().as_bytes().len();
    (bytes >= 3 || reads(t, "s") || reads(t, "c") || reads(t, "vc")) && !filler(t)
}

/// The short form of a word.
fn shorten(t: &Vec<char>) -> (r: Vec<char>)
    ensures
        r@ == short_form(t@),
{
    if reads(t, "support") || reads(t, "supports") {
        chars_of("s")
    } else if reads(t, "convoy") || reads(t, "convoys") || reads(t, "vc") {
        chars_of("c")
    } else if reads(t, "north") {
        chars_of("nc")
    } else if reads(t, "south") {
        chars_of("sc")
    } else if reads(t, "east") {
        chars_of("ec")
    } else if reads(t, "west") {
        chars_of("wc")
    } else {
        t.clone()
    }
}

/// The words of a line.
pub fn read_words(line: &Vec<char>) -> (r: Vec<Vec<char>>)
    ensures
        texts(r@) == words_of(line@),
{
    let lower = chars_of(to_lowercase(string_of(line).as_str()).as_str());
    let ps = split(&join_coasts(&open_coasts(&lower)), Cut::NonWord);
    let mut out: Vec<Vec<char>> = Vec::new();
    let mut i: usize = 0;
    assert(texts(out@) =~= Seq::<Seq<char>>::empty());
    while i < ps.len()
        invariant
            i <= ps.len(),
            texts(out@) == words_upto(texts(ps@), i as int),
        decreases ps.len() - i,
    {
        let ghost before = texts(out@);
        assert(texts(ps@)[i as int] == ps@[i as int]@);
        if word(&ps[i]) {
            let w = shorten(&ps[i]);
            out.push(w);
            assert(texts(out@) =~= before.push(short_form(ps@[i as int]@)));
        }
        i += 1;
    }
    out
}

/// The order that a line's words spell.
pub fn read_order(ws: &Vec<Vec<char>>) -> (r: Option<(Province, Action)>)
    ensures
        match r {
            Some(o) => order_of(texts(ws@)) == Some((o.0@, o.1@)),
            None => order_of(texts(ws@)) is None,
        },
{
    if ws.len() < 2 {
        return None;
    }
    assert(texts(ws@)[0] == ws@[0]@);
    assert(texts(ws@)[1] == ws@[1]@);
    let province = Province::read(&ws[0]);
    if reads(&ws[1], "s") {
        if ws.len() == 2 {
            return None;
        }
        assert(texts(ws@)[2] == ws@[2]@);
        if ws.len() == 3 {
            return Some((province, Action::SupportHold { to: Province::read(&ws[2]) }));
        }
        assert(texts(ws@)[3] == ws@[3]@);
        Some(
            (
                province,
                Action::SupportMove { from: Province::read(&ws[2]), to: Province::read(&ws[3]) },
            ),
        )
    } else if reads(&ws[1], "c") {
        if ws.len() < 4 {
            return None;
        }
        assert(texts(ws@)[2] == ws@[2]@);
        assert(texts(ws@)[3] == ws@[3]@);
        Some(
            (province, Action::Convoy { from: Province::read(&ws[2]), to: Province::read(&ws[3]) }),
        )
    } else {
        let convoyed = if ws.len() >= 3 {
            assert(texts(ws@)[2] == ws@[2]@);
            reads(&ws[2], "c")
        } else {
            false
        };
        Some((province, Action::Move { to: Province::read(&ws[1]), convoyed }))
    }
}

/// Reads the orders that a text spells, one per line.
pub fn read_orders(text: &str) -> (r: Vec<(Province, Action)>)
    ensures
        orders_view(r@) == orders_in(text@),
{
    let lines = split(&chars_of(text), Cut::Line);
    let mut out: Vec<(Province, Action)> = Vec::new();
    let mut i: usize = 0;
    assert(orders_view(out@) =~= Seq::<(ProvinceView, ActionView)>::empty());
    while i < lines.len()
        invariant
            i <= lines.len(),
            texts(lines@) == pieces(text@, Cut::Line),
            orders_view(out@) == orders_upto(texts(lines@), i as int),
        decreases lines.len() - i,
    {
        let ghost before = orders_view(out@);
        assert(texts(lines@)[i as int] == lines@[i as int]@);
        let ws = read_words(&lines[i]);
        match read_order(&ws) {
            Some(o) => {
                let ghost v = (o.0@, o.1@);
                out.push(o);
                assert(orders_view(out@) =~= before.push(v));
            },
            None => {},
        }
        i += 1;
    }
    out
}

impl Stpsyr {
    /// Submits each order of `list` for `power`, in turn.
    pub fn submit(&mut self, power: &Power, list: Vec<(Province, Action)>)
        requires
            old(self).sound(),
            diplomacy(old(self).phase),
        ensures
            final(self).sound(),
            *final(self) == (Stpsyr { orders: final(self).orders, ..*old(self) }),
            final(self).orders@ == submitted_upto(
                old(self).map@,
                old(self).orders@,
                *power,
                list@,
                list.len() as int,
            ),
    {
        let mut i: usize = 0;
        while i < list.len()
            invariant
                i <= list.len(),
                self.sound(),
                diplomacy(self.phase),
                *self == (Stpsyr { orders: self.orders, ..*old(self) }),
                self.orders@ == submitted_upto(
                    old(self).map@,
                    old(self).orders@,
                    *power,
                    list@,
                    i as int,
                ),
            decreases list.len() - i,
        {
            self.add_order(power.clone(), list[i].0.clone(), list[i].1.clone());
            i += 1;
        }
    }

    /// Reads the orders that `text` spells for the current movement phase, one
    /// per line, and submits them for `power`.
    pub fn parse(&mut self, power: &Power, orders: String)
        requires
            old(self).sound(),
            diplomacy(old(self).phase),
        ensures
            final(self).sound(),
            *final(self) == (Stpsyr { orders: final(self).orders, ..*old(self) }),
            exists|list: Seq<(Province, Action)>|
                orders_view(list) == orders_in(orders@) && final(self).orders@ == #[trigger] submitted_upto(
                    old(self).map@,
                    old(self).orders@,
                    *power,
                    list,
                    list.len() as int,
                ),
    {
        let list = read_orders(orders.as_str());
        let ghost l = list@;
        self.submit(power, list);
        assert(orders_view(l) == orders_in(orders@));
    }
}

} // verus!
