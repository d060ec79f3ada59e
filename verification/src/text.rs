//! Text helpers: the few operations on strings and characters that the rest of the
//! library builds on.

use vstd::prelude::*;
use vstd::string::StrSliceExecFns;

verus! {

/// The lower-case form of a text: what `str::to_lowercase` returns for it.
pub uninterp spec fn lowercase(s: Seq<char>) -> Seq<char>;

/// Whether a character is a lower-case letter: what `char::is_lowercase` returns for it.
pub uninterp spec fn lowercase_letter(c: char) -> bool;

/// Calls `str::to_lowercase`. The result is a function of the text alone (the
/// conversion uses fixed Unicode tables and no locale), so the contract gives it
/// the name [`lowercase`] and claims nothing else about it.
#[verifier::external_body]
pub(crate) fn to_lowercase(s: &str) -> (r: String)
    ensures
        r@ == lowercase(s@),
{
    s.to_lowercase()
}

/// Calls `char::is_lowercase`. The result depends on the character alone; the
/// contract names it [`lowercase_letter`].
#[verifier::external_body]
pub(crate) fn is_lowercase(c: char) -> (r: bool)
    ensures
        r == lowercase_letter(c),
{
    c.is_lowercase()
}

/// Calls `String::from_iter` on the characters of a vector. The string that it
/// builds holds exactly those characters, in the same order.
#[verifier::external_body]
pub(crate) fn string_of(v: &Vec<char>) -> (r: String)
    ensures
        r@ == v@,
{
    String::from_iter(v.iter())
}

/// The position of the first `c` in `s` at or after `i`, or the length of `s`
/// when there is none.
pub open spec fn first_at(s: Seq<char>, c: char, i: int) -> int
    decreases s.len() - i,
{
    if i < 0 || i >= s.len() {
        s.len() as int
    } else if s[i] == c {
        i
    } else {
        first_at(s, c, i + 1)
    }
}

/// `first_at` stays inside the text and really is the first occurrence.
pub proof fn lemma_first_at(s: Seq<char>, c: char, i: int)
    requires
        0 <= i <= s.len(),
    ensures
        i <= first_at(s, c, i) <= s.len(),
        first_at(s, c, i) < s.len() ==> s[first_at(s, c, i)] == c,
        forall|j: int| i <= j < first_at(s, c, i) ==> s[j] != c,
    decreases s.len() - i,
{
    if i < s.len() && s[i] != c {
        lemma_first_at(s, c, i + 1);
    }
}

/// The characters of a text, in order.
pub fn chars_of(s: &str) -> (r: Vec<char>)
    ensures
        r@ == s@,
{
    let n = s.unicode_len();
    let mut v: Vec<char> = Vec::new();
    let mut i: usize = 0;
    while i < n
        invariant
            n == s@.len(),
            i <= n,
            v@ == s@.subrange(0, i as int),
        decreases n - i,
    {
        v.push(s.get_char(i));
        i += 1;
        assert(v@ =~= s@.subrange(0, i as int));
    }
    assert(v@ =~= s@);
    v
}

/// Finds the first `c` in `v`: its index, or the length of `v` when there is none.
pub fn find_char(v: &Vec<char>, c: char) -> (k: usize)
    ensures
        k as int == first_at(v@, c, 0),
        k <= v.len(),
{
    let mut i: usize = 0;
    while i < v.len()
        invariant
            i <= v.len(),
            first_at(v@, c, 0) == first_at(v@, c, i as int),
        decreases v.len() - i,
    {
        if v[i] == c {
            return i;
        }
        i += 1;
    }
    i
}

/// Copies the characters `v[from..to]` into a new vector.
pub fn slice_chars(v: &Vec<char>, from: usize, to: usize) -> (r: Vec<char>)
    requires
        from <= to <= v.len(),
    ensures
        r@ == v@.subrange(from as int, to as int),
{
    let mut out: Vec<char> = Vec::new();
    let mut i: usize = from;
    while i < to
        invariant
            from <= i <= to <= v.len(),
            out@ == v@.subrange(from as int, i as int),
        decreases to - i,
    {
        out.push(v[i]);
        i += 1;
        assert(out@ =~= v@.subrange(from as int, i as int));
    }
    out
}

/// The two ways in which the library cuts a text into pieces.
#[derive(Clone, Copy, Debug, PartialEq, Eq, Structural)]
pub enum Cut {
    /// At white space.
    Space,
    /// At every character that is neither a lower-case letter nor a `/`.
    NonWord,
    /// At the end of each line.
    Line,
}

/// Whether `c` is white space: one of the characters with the Unicode property
/// `White_Space`.
pub open spec fn is_space(c: char) -> bool {
    let n = c as u32;
    (0x09 <= n <= 0x0d) || n == 0x20 || n == 0x85 || n == 0xa0 || n == 0x1680 || (0x2000 <= n
        <= 0x200a) || n == 0x2028 || n == 0x2029 || n == 0x202f || n == 0x205f || n == 0x3000
}

/// Whether a text is cut at the character `c`.
pub open spec fn cuts(cut: Cut, c: char) -> bool {
    match cut {
        Cut::Space => is_space(c),
        Cut::NonWord => !(lowercase_letter(c) || c == '/'),
        Cut::Line => c == '\n',
    }
}

/// The pieces into which the rest of `s` falls when it is cut at each
/// separating character, where the piece being read began at `start` and has
/// been read up to `i`. Two separators in a row have an empty piece between them.
pub open spec fn pieces_from(s: Seq<char>, cut: Cut, start: int, i: int) -> Seq<Seq<char>>
    decreases s.len() - i,
{
    if i < 0 || i >= s.len() {
        seq![s.subrange(start, s.len() as int)]
    } else if cuts(cut, s[i]) {
        seq![s.subrange(start, i)] + pieces_from(s, cut, i + 1, i + 1)
    } else {
        pieces_from(s, cut, start, i + 1)
    }
}

/// The pieces into which `s` falls when it is cut at each separating character.
pub open spec fn pieces(s: Seq<char>, cut: Cut) -> Seq<Seq<char>> {
    pieces_from(s, cut, 0, 0)
}

/// The texts of `v` that are not empty, in order.
pub open spec fn non_empty(v: Seq<Seq<char>>) -> Seq<Seq<char>>
    decreases v.len(),
{
    if v.len() == 0 {
        Seq::empty()
    } else {
        let before = non_empty(v.drop_last());
        if v.last().len() > 0 {
            before.push(v.last())
        } else {
            before
        }
    }
}

/// The words of a text: its pieces between white space, without the empty ones.
pub open spec fn words(s: Seq<char>) -> Seq<Seq<char>> {
    non_empty(pieces(s, Cut::Space))
}

/// The texts held by a vector of character vectors.
pub open spec fn texts(v: Seq<Vec<char>>) -> Seq<Seq<char>> {
    Seq::new(v.len(), |i: int| v[i]@)
}

/// Tells whether `c` is white space.
pub fn space(c: char) -> (r: bool)
    ensures
        r == is_space(c),
{
    let n = c as u32;
    (0x09 <= n && n <= 0x0d) || n == 0x20 || n == 0x85 || n == 0xa0 || n == 0x1680 || (0x2000 <= n
        && n <= 0x200a) || n == 0x2028 || n == 0x2029 || n == 0x202f || n == 0x205f || n == 0x3000
}

/// Tells whether a text is cut at the character `c`.
pub fn separates(cut: Cut, c: char) -> (r: bool)
    ensures
        r == cuts(cut, c),
{
    match cut {
        Cut::Space => space(c),
        Cut::NonWord => !(is_lowercase(c) || c == '/'),
        Cut::Line => c == '\n',
    }
}

/// Cuts `v` at each separating character.
pub fn split(v: &Vec<char>, cut: Cut) -> (r: Vec<Vec<char>>)
    ensures
        texts(r@) == pieces(v@, cut),
{
    let mut out: Vec<Vec<char>> = Vec::new();
    let mut start: usize = 0;
    let mut i: usize = 0;
    assert(texts(out@) =~= Seq::<Seq<char>>::empty());
    while i < v.len()
        invariant
            start <= i <= v.len(),
            texts(out@) + pieces_from(v@, cut, start as int, i as int) == pieces(v@, cut),
        decreases v.len() - i,
    {
        if separates(cut, v[i]) {
            let ghost before = texts(out@);
            let ghost rest = pieces_from(v@, cut, i as int + 1, i as int + 1);
            let piece = slice_chars(v, start, i);
            out.push(piece);
            assert(texts(out@) =~= before + seq![v@.subrange(start as int, i as int)]);
            assert((before + seq![v@.subrange(start as int, i as int)]) + rest =~= before + (
            seq![v@.subrange(start as int, i as int)] + rest));
            start = i + 1;
        }
        i += 1;
    }
    let ghost before = texts(out@);
    let piece = slice_chars(v, start, v.len());
    out.push(piece);
    assert(texts(out@) =~= before + seq![v@.subrange(start as int, v@.len() as int)]);
    out
}

/// Drops the empty texts from `v`.
pub fn drop_empty(v: Vec<Vec<char>>) -> (r: Vec<Vec<char>>)
    ensures
        texts(r@) == non_empty(texts(v@)),
{
    let mut out: Vec<Vec<char>> = Vec::new();
    let mut i: usize = 0;
    assert(texts(out@) =~= Seq::<Seq<char>>::empty());
    assert(texts(v@).subrange(0, 0) =~= Seq::<Seq<char>>::empty());
    while i < v.len()
        invariant
            i <= v.len(),
            texts(out@) == non_empty(texts(v@).subrange(0, i as int)),
        decreases v.len() - i,
    {
        let ghost before = texts(out@);
        let ghost upto = texts(v@).subrange(0, i as int + 1);
        assert(upto.drop_last() =~= texts(v@).subrange(0, i as int));
        assert(upto.last() == v@[i as int]@);
        if v[i].len() > 0 {
            out.push(v[i].clone());
            assert(texts(out@) =~= before.push(v@[i as int]@));
        }
        i += 1;
    }
    assert(texts(v@).subrange(0, v@.len() as int) =~= texts(v@));
    out
}

/// The words of a text, in order.
pub fn split_words(v: &Vec<char>) -> (r: Vec<Vec<char>>)
    ensures
        texts(r@) == words(v@),
{
    drop_empty(split(v, Cut::Space))
}

/// Tells whether two texts hold the same characters.
pub fn same_chars(a: &Vec<char>, b: &Vec<char>) -> (r: bool)
    ensures
        r == (a@ == b@),
{
    if a.len() != b.len() {
        return false;
    }
    let mut i: usize = 0;
    while i < a.len()
        invariant
            i <= a.len(),
            a.len() == b.len(),
            forall|j: int| 0 <= j < i ==> a@[j] == b@[j],
        decreases a.len() - i,
    {
        if a[i] != b[i] {
            return false;
        }
        i += 1;
    }
    assert(a@ =~= b@);
    true
}

/// Tells whether the text `a` reads `word`.
pub fn reads(a: &Vec<char>, word: &str) -> (r: bool)
    ensures
        r == (a@ == word@),
{
    let w = chars_of(word);
    same_chars(a, &w)
}

} // verus!
