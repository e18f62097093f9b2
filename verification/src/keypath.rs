//! Decoding a key into its path: split on the separator, lowercase each
//! piece, and classify each piece as an object field or an array index.

use vstd::prelude::*;
use crate::chars::chars_vec;
use crate::chars::sub_chars;
use crate::scalar::parse_usize_spec;
use crate::scalar::parse_usize_chars;

verus! {

/// Whether `sep` occurs in `s` at position `i`.
pub open spec fn match_at(s: Seq<char>, sep: Seq<char>, i: int) -> bool {
    0 <= i && i + sep.len() <= s.len() && s.subrange(i, i + sep.len()) == sep
}

/// First occurrence of `sep` in `s` at or after `i`.
pub open spec fn find_sep(s: Seq<char>, sep: Seq<char>, i: int) -> Option<int>
    decreases s.len() - i + 1,
{
    if i < 0 || i + sep.len() > s.len() {
        None
    } else if match_at(s, sep, i) {
        Some(i)
    } else {
        find_sep(s, sep, i + 1)
    }
}

pub proof fn lemma_find_sep_some(s: Seq<char>, sep: Seq<char>, i: int)
    requires
        find_sep(s, sep, i) is Some,
    ensures
        i <= find_sep(s, sep, i)->0,
        find_sep(s, sep, i)->0 + sep.len() <= s.len(),
        match_at(s, sep, find_sep(s, sep, i)->0),
    decreases s.len() - i + 1,
{
    if !(i < 0 || i + sep.len() > s.len()) && !match_at(s, sep, i) {
        lemma_find_sep_some(s, sep, i + 1);
    }
}

/// The pieces of `s[base..]` between non-overlapping occurrences of `sep`,
/// leftmost first.
pub open spec fn split_from(s: Seq<char>, sep: Seq<char>, base: int) -> Seq<Seq<char>>
    recommends
        sep.len() > 0,
        0 <= base <= s.len(),
    decreases s.len() - base,
    via split_from_dec
{
    if sep.len() == 0 {
        seq![s.skip(base)]
    } else {
        match find_sep(s, sep, base) {
            Some(j) => seq![s.subrange(base, j)].add(split_from(s, sep, j + sep.len())),
            None => seq![s.skip(base)],
        }
    }
}

#[via_fn]
proof fn split_from_dec(s: Seq<char>, sep: Seq<char>, base: int) {
    if sep.len() > 0 && find_sep(s, sep, base) is Some {
        lemma_find_sep_some(s, sep, base);
    }
}

/// The split of `s` with an empty separator: an empty piece before each
/// character and one after the last, as the standard library has it.
pub open spec fn empty_sep_split(s: Seq<char>) -> Seq<Seq<char>> {
    seq![Seq::<char>::empty()].add(Seq::new(s.len(), |i: int| seq![s[i]])).add(
        seq![Seq::<char>::empty()],
    )
}

/// How `str::split` cuts a key on a separator string.
pub open spec fn split_spec(s: Seq<char>, sep: Seq<char>) -> Seq<Seq<char>> {
    if sep.len() == 0 {
        empty_sep_split(s)
    } else {
        split_from(s, sep, 0)
    }
}

/// Decides `match_at`.
fn match_at_chars(s: &Vec<char>, sep: &Vec<char>, i: usize) -> (r: bool)
    requires
        i + sep@.len() <= s@.len(),
    ensures
        r == match_at(s@, sep@, i as int),
{
    let n = s.len();
    let mut k: usize = 0;
    while k < sep.len()
        invariant
            n == s@.len(),
            i + sep@.len() <= n,
            k <= sep@.len(),
            forall|j: int| 0 <= j < k ==> s@[i + j] == sep@[j],
        decreases sep@.len() - k,
    {
        if s[i + k] != sep[k] {
            proof {
                assert(s@.subrange(i as int, i + sep@.len())[k as int] == s@[i + k]);
            }
            return false;
        }
        k += 1;
    }
    proof {
        assert(s@.subrange(i as int, i + sep@.len()) =~= sep@);
    }
    true
}

/// First occurrence of `sep` in `s` at or after `from`, if any.
fn find_occ(s: &Vec<char>, sep: &Vec<char>, from: usize) -> (r: Option<usize>)
    requires
        sep@.len() >= 1,
        from <= s@.len(),
    ensures
        match r {
            Some(j) => from <= j && j + sep@.len() <= s@.len() && find_sep(s@, sep@, from as int)
                == Some(j as int),
            None => find_sep(s@, sep@, from as int) is None,
        },
{
    if sep.len() > s.len() {
        return None;
    }
    let last_start = s.len() - sep.len();
    if from > last_start {
        return None;
    }
    let n = s.len();
    let mut i: usize = from;
    while i <= last_start
        invariant
            n == s@.len(),
            from <= i,
            i <= last_start + 1,
            last_start == s@.len() - sep@.len(),
            sep@.len() >= 1,
            find_sep(s@, sep@, from as int) == find_sep(s@, sep@, i as int),
        decreases last_start + 1 - i,
    {
        if match_at_chars(s, sep, i) {
            return Some(i);
        }
        i += 1;
    }
    None
}

/// Splits `s` on `sep` as the standard library does, every piece copied
/// out; there is always at least one piece.
pub fn split_chars(s: &Vec<char>, sep: &Vec<char>) -> (r: Vec<Vec<char>>)
    ensures
        r@.map_values(|p: Vec<char>| p@) == split_spec(s@, sep@),
        r@.len() >= 1,
{
    if sep.len() == 0 {
        let mut r: Vec<Vec<char>> = Vec::new();
        r.push(Vec::new());
        let mut i: usize = 0;
        while i < s.len()
            invariant
                i <= s@.len(),
                r@.len() == i + 1,
                (r@[0])@ == Seq::<char>::empty(),
                forall|j: int| 1 <= j <= i ==> (#[trigger] r@[j])@ == seq![s@[j - 1]],
            decreases s@.len() - i,
        {
            let mut p: Vec<char> = Vec::new();
            p.push(s[i]);
            proof {
                assert(p@ =~= seq![s@[i as int]]);
            }
            r.push(p);
            i += 1;
        }
        r.push(Vec::new());
        proof {
            let es = empty_sep_split(s@);
            assert forall|j: int| 0 <= j < r@.len() implies (#[trigger] r@[j])@ == es[j] by {
                if j == 0 {
                } else if j <= s@.len() {
                    assert((r@[j])@ == seq![s@[j - 1]]);
                    assert(es[j] == Seq::new(s@.len(), |k: int| seq![s@[k]])[j - 1]);
                } else {
                    assert(es[j] == Seq::<char>::empty());
                }
            }
            assert(r@.map_values(|p: Vec<char>| p@) =~= empty_sep_split(s@));
        }
        return r;
    }
    let n = s.len();
    let mut r: Vec<Vec<char>> = Vec::new();
    let mut base: usize = 0;
    loop
        invariant
            n == s@.len(),
            sep@.len() >= 1,
            base <= s@.len(),
            split_from(s@, sep@, 0) == r@.map_values(|p: Vec<char>| p@).add(
                split_from(s@, sep@, base as int),
            ),
        decreases s@.len() - base,
    {
        match find_occ(s, sep, base) {
            Some(j) => {
                let piece = sub_chars(s, base, j);
                r.push(piece);
                proof {
                    assert(split_from(s@, sep@, 0) =~~= r@.map_values(|p: Vec<char>| p@).add(
                        split_from(s@, sep@, j + sep@.len()),
                    ));
                }
                base = j + sep.len();
            },
            None => {
                let piece = sub_chars(s, base, s.len());
                r.push(piece);
                proof {
                    assert(piece@ == s@.skip(base as int));
                    assert(split_from(s@, sep@, 0) =~~= r@.map_values(|p: Vec<char>| p@));
                    assert(r@.map_values(|p: Vec<char>| p@) =~~= split_spec(s@, sep@));
                }
                return r;
            },
        }
    }
}

/// What `str::to_lowercase` yields on a given character sequence; the
/// result depends on the characters alone.
pub uninterp spec fn lower_of(s: Seq<char>) -> Seq<char>;

/// Relies on `str::to_lowercase`: lowercases one piece of a key.
#[verifier::external_body]
fn lower_piece(v: &Vec<char>) -> (r: String)
    ensures
        r@ == lower_of(v@),
{
    v.iter().collect::<String>().to_lowercase()
}

/// The decoded pieces of a key: split on the separator, each piece
/// lowercased.
pub open spec fn parts_spec(key: Seq<char>, sep: Seq<char>) -> Seq<Seq<char>> {
    split_spec(key, sep).map_values(|p: Seq<char>| lower_of(p))
}

/// Splits a key on the separator and lowercases each piece.
pub fn decode_parts(key: &Vec<char>, sep: &Vec<char>) -> (r: Vec<String>)
    ensures
        r@.map_values(|p: String| p@) == parts_spec(key@, sep@),
        r@.len() >= 1,
{
    let pieces = split_chars(key, sep);
    let mut r: Vec<String> = Vec::new();
    let mut i: usize = 0;
    while i < pieces.len()
        invariant
            i <= pieces@.len(),
            pieces@.map_values(|p: Vec<char>| p@) == split_spec(key@, sep@),
            r@.len() == i,
            forall|j: int| 0 <= j < i ==> (#[trigger] r@[j])@ == parts_spec(key@, sep@)[j],
        decreases pieces@.len() - i,
    {
        let low = lower_piece(&pieces[i]);
        r.push(low);
        i += 1;
    }
    proof {
        assert(r@.map_values(|p: String| p@) =~= parts_spec(key@, sep@));
    }
    r
}

/// One decoded unit of a key path: an object field name or an array index.
/// A piece is an index if and only if the whole piece parses as a
/// non-negative machine integer.
#[derive(Debug, Clone)]
pub enum JsonIndex {
    Field(String),
    Index(usize),
}

/// The mathematical shape of a `JsonIndex`.
pub enum SegView {
    Field(Seq<char>),
    Index(int),
}

impl View for JsonIndex {
    type V = SegView;

    open spec fn view(&self) -> SegView {
        match self {
            JsonIndex::Field(s) => SegView::Field(s@),
            JsonIndex::Index(n) => SegView::Index(*n as int),
        }
    }
}

/// How a lowercased piece is classified.
pub open spec fn seg_of(s: Seq<char>) -> SegView {
    match parse_usize_spec(s) {
        Some(n) => SegView::Index(n),
        None => SegView::Field(s),
    }
}

impl JsonIndex {
    /// Classifies one piece of a key path.
    pub fn from_piece(s: &str) -> (r: JsonIndex)
        ensures
            r@ == seg_of(s@),
    {
        let cs = chars_vec(s);
        match parse_usize_chars(&cs) {
            Some(n) => JsonIndex::Index(n),
            None => JsonIndex::Field(s.to_owned()),
        }
    }

    /// Classifies each piece of a decoded key path in turn.
    pub fn from_vec(vec: Vec<&str>) -> (r: Vec<JsonIndex>)
        ensures
            r@.map_values(|x: JsonIndex| x@) == vec@.map_values(|s: &str| seg_of(s@)),
    {
        let mut r: Vec<JsonIndex> = Vec::new();
        let mut i: usize = 0;
        while i < vec.len()
            invariant
                i <= vec@.len(),
                r@.len() == i,
                forall|j: int| 0 <= j < i ==> (#[trigger] r@[j])@ == seg_of(vec@[j]@),
            decreases vec@.len() - i,
        {
            r.push(JsonIndex::from_piece(vec[i]));
            i += 1;
        }
        proof {
            assert(r@.map_values(|x: JsonIndex| x@) =~= vec@.map_values(|s: &str| seg_of(s@)));
        }
        r
    }
}

} // verus!
