//! Laws of the merge engine, chief among them: splicing the same path and
//! value twice leaves the tree exactly as splicing it once does.

use vstd::prelude::*;
use crate::Error;
use crate::keypath::SegView;
use crate::keypath::seg_of;
use crate::scalar::coerce_spec;
use crate::scalar::parse_usize_spec;
use crate::scalar::uint_body;
use crate::scalar::lemma_digits_val_nonneg;
use crate::splice::obj_get;
use crate::splice::obj_set;
use crate::splice::lemma_obj_set_update;
use crate::splice::lemma_obj_set_push;
use crate::splice::lemma_obj_get_no_key;
use crate::splice::resolve_at;
use crate::splice::replace_at;
use crate::splice::arr_set_pad;
use crate::splice::segs_of;
use crate::splice::splice_rec;
use crate::splice::splice_spec;
use crate::splice::merge_into;
use crate::splice::part_value;
use crate::splice::wrap_part;
use crate::splice::PartView;
use crate::splice::array_item_value;
use crate::parser::apply_pair;
use crate::parser::apply_all;
use crate::parser::parse_spec;
use crate::parser::filter_pairs;
use crate::parser::keep_pair;
use crate::parser::strip_key;
use crate::parser::insert_desc;
use crate::parser::sort_desc;
use crate::chars::chars_lt;
use vstd::multiset::Multiset;
use crate::keypath::parts_spec;
use crate::value::ValueView;

verus! {

/// The shapes coercion can yield: never a container and never null.
pub open spec fn is_scalar(v: ValueView) -> bool {
    v is Int || v is Float || v is Bool || v is Text
}

/// Whatever coercion accepts is a scalar.
pub proof fn lemma_coerce_scalar(raw: Seq<char>)
    requires
        coerce_spec(raw) is Ok,
    ensures
        is_scalar(coerce_spec(raw)->Ok_0),
{
}

/// A piece decoding to an array index decodes to a non-negative one.
proof fn lemma_seg_index_nonneg(s: Seq<char>)
    ensures
        seg_of(s) is Index ==> seg_of(s)->Index_0 >= 0,
{
    if parse_usize_spec(s) is Some {
        lemma_digits_val_nonneg(uint_body(s));
    }
}

/// Once the first segment of a path fails to resolve, every longer
/// prefix fails too.
proof fn lemma_resolve_first_fail(t: ValueView, path: Seq<SegView>, upto: int)
    requires
        resolve_at(t, path, 0, 1) is None,
        upto >= 1,
    ensures
        resolve_at(t, path, 0, upto) is None,
{
    assert(path.len() > 0) by {
        if path.len() == 0 {
            assert(resolve_at(t, path, 0, 1) == Some(t));
        }
    }
    match path[0] {
        SegView::Field(k) => match t {
            ValueView::Object(fs) => match obj_get(fs, k) {
                Some(sub) => {
                    assert(resolve_at(sub, path, 1, 1) == Some(sub));
                },
                None => {
                    assert(resolve_at(t, path, 0, upto) is None);
                },
            },
            _ => {
                assert(resolve_at(t, path, 0, upto) is None);
            },
        },
        SegView::Index(n) => match t {
            ValueView::Array(es) => {
                if 0 <= n < es.len() {
                    assert(resolve_at(es[n], path, 1, 1) == Some(es[n]));
                } else {
                    assert(resolve_at(t, path, 0, upto) is None);
                }
            },
            _ => {
                assert(resolve_at(t, path, 0, upto) is None);
            },
        },
    }
}

/// Writing a field then reading it back yields the written value.
proof fn lemma_obj_get_set(fs: Seq<(Seq<char>, ValueView)>, k: Seq<char>, v: ValueView)
    ensures
        obj_get(obj_set(fs, k, v), k) == Some(v),
    decreases fs.len(),
{
    if fs.len() == 0 {
    } else if fs[0].0 == k {
        assert(obj_set(fs, k, v)[0] == (k, v));
    } else {
        lemma_obj_get_set(fs.skip(1), k, v);
        assert(obj_set(fs, k, v)[0] == fs[0]);
        assert(obj_set(fs, k, v).skip(1) =~= obj_set(fs.skip(1), k, v));
    }
}

/// Writing the same field twice is writing it once.
proof fn lemma_obj_set_set(fs: Seq<(Seq<char>, ValueView)>, k: Seq<char>, v: ValueView)
    ensures
        obj_set(obj_set(fs, k, v), k, v) == obj_set(fs, k, v),
    decreases fs.len(),
{
    if fs.len() == 0 {
        assert(obj_set(obj_set(fs, k, v), k, v) =~= obj_set(fs, k, v));
    } else if fs[0].0 == k {
        assert(obj_set(fs, k, v)[0] == (k, v));
        assert(obj_set(fs, k, v).skip(1) =~= fs.skip(1));
        assert(obj_set(obj_set(fs, k, v), k, v) =~= obj_set(fs, k, v));
    } else {
        lemma_obj_set_set(fs.skip(1), k, v);
        assert(obj_set(fs, k, v)[0] == fs[0]);
        assert(obj_set(fs, k, v).skip(1) =~= obj_set(fs.skip(1), k, v));
        assert(obj_set(obj_set(fs, k, v), k, v) =~= obj_set(fs, k, v));
    }
}

/// Writing back the value a field already holds changes nothing.
proof fn lemma_obj_set_same(fs: Seq<(Seq<char>, ValueView)>, k: Seq<char>, v: ValueView)
    requires
        obj_get(fs, k) == Some(v),
    ensures
        obj_set(fs, k, v) == fs,
    decreases fs.len(),
{
    if fs.len() == 0 {
    } else if fs[0].0 == k {
        assert(obj_set(fs, k, v) =~= fs);
    } else {
        lemma_obj_set_same(fs.skip(1), k, v);
        assert(obj_set(fs, k, v) =~= fs);
    }
}

/// The slot an array write addressed holds the written value.
proof fn lemma_arr_set_pad_get(es: Seq<ValueView>, n: int, v: ValueView)
    requires
        0 <= n,
    ensures
        n < arr_set_pad(es, n, v).len(),
        arr_set_pad(es, n, v)[n] == v,
{
}

/// After replacing the node under a resolving path, that path resolves to
/// the replacement.
proof fn lemma_replace_resolve(t: ValueView, path: Seq<SegView>, i: int, upto: int, m: ValueView)
    requires
        resolve_at(t, path, i, upto) is Some,
    ensures
        resolve_at(replace_at(t, path, i, upto, m), path, i, upto) == Some(m),
    decreases upto - i,
{
    if i < 0 || i >= upto || i >= path.len() {
    } else {
        match path[i] {
            SegView::Field(k) => match t {
                ValueView::Object(fs) => {
                    let sub = obj_get(fs, k)->0;
                    lemma_replace_resolve(sub, path, i + 1, upto, m);
                    lemma_obj_get_set(fs, k, replace_at(sub, path, i + 1, upto, m));
                },
                _ => {},
            },
            SegView::Index(n) => match t {
                ValueView::Array(es) => {
                    if 0 <= n < es.len() {
                        lemma_replace_resolve(es[n], path, i + 1, upto, m);
                    }
                },
                _ => {},
            },
        }
    }
}

/// Replacing the node under a resolving path with the value already there
/// changes nothing.
proof fn lemma_replace_same(t: ValueView, path: Seq<SegView>, i: int, upto: int)
    requires
        resolve_at(t, path, i, upto) is Some,
    ensures
        replace_at(t, path, i, upto, resolve_at(t, path, i, upto)->0) == t,
    decreases upto - i,
{
    if i < 0 || i >= upto || i >= path.len() {
    } else {
        match path[i] {
            SegView::Field(k) => match t {
                ValueView::Object(fs) => {
                    let sub = obj_get(fs, k)->0;
                    lemma_replace_same(sub, path, i + 1, upto);
                    lemma_obj_set_same(fs, k, sub);
                },
                _ => {},
            },
            SegView::Index(n) => match t {
                ValueView::Array(es) => {
                    if 0 <= n < es.len() {
                        lemma_replace_same(es[n], path, i + 1, upto);
                        assert(es.update(n, es[n]) =~= es);
                    }
                },
                _ => {},
            },
        }
    }
}

/// The part carried at loop level `i`: the coerced value at the deepest
/// level, wrapped once for every level below `i`.
pub open spec fn carried(parts: Seq<Seq<char>>, cv: ValueView, i: int) -> PartView
    decreases parts.len() - i,
{
    if i >= parts.len() - 1 || i < 0 {
        PartView::Object(cv)
    } else {
        wrap_part(parts[i + 1], carried(parts, cv, i + 1))
    }
}

/// The tree a carried part stands for resolves, along the rest of the
/// path, to the coerced value at the bottom.
proof fn lemma_carried_resolves(parts: Seq<Seq<char>>, cv: ValueView, i: int)
    requires
        0 <= i < parts.len(),
    ensures
        resolve_at(
            part_value(carried(parts, cv, i)),
            segs_of(parts),
            i + 1,
            parts.len() as int,
        ) == Some(cv),
    decreases parts.len() - i,
{
    let path = segs_of(parts);
    if i >= parts.len() - 1 {
    } else {
        lemma_carried_resolves(parts, cv, i + 1);
        lemma_seg_index_nonneg(parts[i + 1]);
        let w = part_value(carried(parts, cv, i + 1));
        assert(path[i + 1] == seg_of(parts[i + 1]));
        match seg_of(parts[i + 1]) {
            SegView::Field(k) => {
                assert(part_value(carried(parts, cv, i)) == ValueView::Object(seq![(k, w)]));
                assert(obj_get(seq![(k, w)], k) == Some(w));
            },
            SegView::Index(n) => {
                assert(part_value(carried(parts, cv, i)) == array_item_value(n, w));
                assert(Seq::new(n as nat, |j: int| ValueView::Null).push(w).len() == n + 1);
                assert(Seq::new(n as nat, |j: int| ValueView::Null).push(w)[n] == w);
            },
        }
    }
}

/// After a carried part merges into an existing node, the rest of the
/// path resolves through the merged node to the coerced value.
proof fn lemma_merge_resolves(
    parts: Seq<Seq<char>>,
    cv: ValueView,
    i: int,
    ex: ValueView,
    m: ValueView,
)
    requires
        is_scalar(cv),
        0 <= i < parts.len(),
        merge_into(ex, carried(parts, cv, i)) == Ok::<ValueView, Error>(m),
    ensures
        resolve_at(m, segs_of(parts), i + 1, parts.len() as int) == Some(cv),
    decreases parts.len() - i,
{
    let path = segs_of(parts);
    let p = carried(parts, cv, i);
    if i >= parts.len() - 1 {
        assert(p == PartView::Object(cv));
        assert(m == cv);
    } else {
        let inner = carried(parts, cv, i + 1);
        let w = part_value(inner);
        lemma_carried_resolves(parts, cv, i + 1);
        lemma_seg_index_nonneg(parts[i + 1]);
        assert(path[i + 1] == seg_of(parts[i + 1]));
        match seg_of(parts[i + 1]) {
            SegView::Field(k) => {
                assert(p == PartView::Object(ValueView::Object(seq![(k, w)])));
                match ex {
                    ValueView::Object(fs) => {
                        assert(seq![(k, w)][0] == (k, w));
                        assert(m == ValueView::Object(obj_set(fs, k, w)));
                        lemma_obj_get_set(fs, k, w);
                    },
                    _ => {
                        assert(m == ValueView::Object(seq![(k, w)]));
                        assert(obj_get(seq![(k, w)], k) == Some(w));
                    },
                }
            },
            SegView::Index(n) => {
                assert(p == PartView::Item(n, w));
                match ex {
                    ValueView::Array(es) => {
                        assert(m == ValueView::Array(arr_set_pad(es, n, w)));
                        lemma_arr_set_pad_get(es, n, w);
                    },
                    _ => {},
                }
            },
        }
    }
}

/// Once the path fails to resolve at its first segment, the engine walks
/// all the way down to the root insertion.
proof fn lemma_splice_rec_all_fail(t: ValueView, parts: Seq<Seq<char>>, cv: ValueView, i: int)
    requires
        2 <= parts.len(),
        0 <= i < parts.len(),
        resolve_at(t, segs_of(parts), 0, 1) is None,
    ensures
        splice_rec(t, parts, i, carried(parts, cv, i)) == splice_rec(
            t,
            parts,
            0,
            carried(parts, cv, 0),
        ),
    decreases i,
{
    let path = segs_of(parts);
    lemma_resolve_first_fail(t, path, i + 1);
    if i > 0 {
        assert(resolve_at(t, path, 0, i + 1) is None);
        assert(wrap_part(parts[i], carried(parts, cv, i)) == carried(parts, cv, i - 1));
        lemma_splice_rec_all_fail(t, parts, cv, i - 1);
    }
}

/// Splicing the same path and coerced value a second time yields the very
/// tree the first splice produced.
pub proof fn lemma_splice_idempotent(t: ValueView, parts: Seq<Seq<char>>, cv: ValueView)
    requires
        is_scalar(cv),
        splice_spec(t, parts, cv) is Ok,
    ensures
        splice_spec(splice_spec(t, parts, cv)->Ok_0, parts, cv) == splice_spec(t, parts, cv),
{
    let path = segs_of(parts);
    let len = parts.len() as int;
    let r = splice_spec(t, parts, cv)->Ok_0;
    if parts.len() == 1 {
        match t {
            ValueView::Object(fs) => {
                lemma_obj_set_set(fs, parts[0], cv);
            },
            _ => {},
        }
    } else {
        lemma_splice_rec_idempotent(t, parts, cv, len - 1);
    }
}

/// The inductive core: from any level of the first splice's walk, the
/// second splice reproduces the first one's result.
proof fn lemma_splice_rec_idempotent(t: ValueView, parts: Seq<Seq<char>>, cv: ValueView, i: int)
    requires
        is_scalar(cv),
        2 <= parts.len(),
        0 <= i < parts.len(),
        splice_rec(t, parts, i, carried(parts, cv, i)) is Ok,
    ensures
        splice_rec(
            splice_rec(t, parts, i, carried(parts, cv, i))->Ok_0,
            parts,
            parts.len() - 1,
            carried(parts, cv, parts.len() - 1),
        ) == splice_rec(t, parts, i, carried(parts, cv, i)),
    decreases i,
{
    let path = segs_of(parts);
    let len = parts.len() as int;
    let p = carried(parts, cv, i);
    let r = splice_rec(t, parts, i, p)->Ok_0;
    match resolve_at(t, path, 0, i + 1) {
        Some(ex) => {
            let m = merge_into(ex, p)->Ok_0;
            assert(r == replace_at(t, path, 0, i + 1, m));
            lemma_replace_resolve(t, path, 0, i + 1, m);
            lemma_merge_resolves(parts, cv, i, ex, m);
            lemma_resolve_chain(r, path, 0, i + 1, len, m, cv);
            assert(resolve_at(r, path, 0, len) == Some(cv));
            lemma_replace_same(r, path, 0, len);
        },
        None => {
            if i == 0 {
                match t {
                    ValueView::Object(fs) => {
                        let w = part_value(p);
                        assert(r == ValueView::Object(obj_set(fs, parts[0], w)));
                        match seg_of(parts[0]) {
                            SegView::Field(k) => {
                                assert(k == parts[0]);
                                lemma_obj_get_set(fs, parts[0], w);
                                lemma_carried_resolves(parts, cv, 0);
                                assert(resolve_at(w, path, 1, 1) == Some(w));
                                assert(resolve_at(r, path, 0, 1) == Some(w));
                                lemma_resolve_chain(r, path, 0, 1, len, w, cv);
                                assert(resolve_at(r, path, 0, len) == Some(cv));
                                lemma_replace_same(r, path, 0, len);
                            },
                            SegView::Index(n) => {
                                assert(resolve_at(r, path, 0, 1) is None);
                                lemma_splice_rec_all_fail(r, parts, cv, len - 1);
                                lemma_obj_set_set(fs, parts[0], w);
                            },
                        }
                    },
                    _ => {},
                }
            } else {
                assert(wrap_part(parts[i], p) == carried(parts, cv, i - 1));
                lemma_splice_rec_idempotent(t, parts, cv, i - 1);
            }
        },
    }
}

/// Resolving a full path is resolving a prefix of it, then the rest from
/// the node the prefix reached.
proof fn lemma_resolve_chain(
    t: ValueView,
    path: Seq<SegView>,
    i: int,
    mid: int,
    upto: int,
    m: ValueView,
    cv: ValueView,
)
    requires
        0 <= i <= mid <= upto,
        resolve_at(t, path, i, mid) == Some(m),
        resolve_at(m, path, mid, upto) == Some(cv),
    ensures
        resolve_at(t, path, i, upto) == Some(cv),
    decreases mid - i,
{
    if i >= mid || i >= path.len() {
        assert(t == m);
    } else {
        match path[i] {
            SegView::Field(k) => match t {
                ValueView::Object(fs) => {
                    lemma_resolve_chain(obj_get(fs, k)->0, path, i + 1, mid, upto, m, cv);
                },
                _ => {},
            },
            SegView::Index(n) => match t {
                ValueView::Array(es) => {
                    if 0 <= n < es.len() {
                        lemma_resolve_chain(es[n], path, i + 1, mid, upto, m, cv);
                    }
                },
                _ => {},
            },
        }
    }
}

/// No pair comes before another with a larger key: keys descend, so a key
/// is processed before every proper prefix of it.
pub open spec fn sorted_desc(s: Seq<(Seq<char>, Seq<char>)>) -> bool {
    forall|i: int, j: int|
        0 <= i < j < s.len() ==> !chars_lt((#[trigger] s[i]).0, (#[trigger] s[j]).0)
}

/// The strict lexicographic order splits around any middle sequence.
proof fn lemma_chars_lt_split(a: Seq<char>, b: Seq<char>, c: Seq<char>)
    requires
        chars_lt(a, c),
    ensures
        chars_lt(a, b) || chars_lt(b, c),
    decreases a.len() + b.len() + c.len(),
{
    if b.len() == 0 {
        assert(c.len() > 0);
        assert(chars_lt(b, c));
    } else if a.len() == 0 {
        assert(chars_lt(a, b));
    } else {
        assert(c.len() > 0);
        let a0 = a[0] as u32;
        let b0 = b[0] as u32;
        let c0 = c[0] as u32;
        if a0 != b0 {
            if a0 < b0 {
                assert(chars_lt(a, b));
            } else {
                if a0 == c0 {
                    assert(chars_lt(b, c));
                } else {
                    assert(a0 < c0);
                    assert(chars_lt(b, c));
                }
            }
        } else {
            if a0 == c0 {
                lemma_chars_lt_split(a.skip(1), b.skip(1), c.skip(1));
            } else {
                assert(a0 < c0);
                assert(chars_lt(b, c));
            }
        }
    }
}

/// The strict lexicographic order is asymmetric.
proof fn lemma_chars_lt_asym(a: Seq<char>, b: Seq<char>)
    requires
        chars_lt(a, b),
    ensures
        !chars_lt(b, a),
    decreases a.len(),
{
    if a.len() > 0 && b.len() > 0 && (a[0] as u32) == (b[0] as u32) {
        lemma_chars_lt_asym(a.skip(1), b.skip(1));
    }
}

/// A sequence is its first element put back before the rest.
proof fn lemma_cons_multiset(r: Seq<(Seq<char>, Seq<char>)>)
    requires
        r.len() > 0,
    ensures
        r.to_multiset() == r.drop_first().to_multiset().insert(r[0]),
{
    broadcast use vstd::seq_lib::group_to_multiset_ensures;

    assert(r.remove(0) =~= r.drop_first());
    assert(r.contains(r[0]));
    assert(r.to_multiset() =~= r.drop_first().to_multiset().insert(r[0]));
}

/// Inserting into a sequence sorted by descending key keeps it sorted and
/// adds exactly the inserted pair.
proof fn lemma_insert_desc_sorted(x: (Seq<char>, Seq<char>), s: Seq<(Seq<char>, Seq<char>)>)
    requires
        sorted_desc(s),
    ensures
        sorted_desc(insert_desc(x, s)),
        insert_desc(x, s).to_multiset() == s.to_multiset().insert(x),
        insert_desc(x, s).len() == s.len() + 1,
    decreases s.len(),
{
    broadcast use vstd::seq_lib::group_to_multiset_ensures;

    let r = insert_desc(x, s);
    if s.len() == 0 {
        assert(r =~= Seq::empty().push(x));
        assert(Seq::<(Seq<char>, Seq<char>)>::empty().to_multiset() =~= Multiset::empty());
    } else if !chars_lt(x.0, s[0].0) {
        assert(r.drop_first() =~= s);
        lemma_cons_multiset(r);
        assert forall|i: int, j: int| 0 <= i < j < r.len() implies !chars_lt(
            (#[trigger] r[i]).0,
            (#[trigger] r[j]).0,
        ) by {
            if i == 0 {
                if chars_lt(x.0, r[j].0) {
                    lemma_chars_lt_split(x.0, s[0].0, r[j].0);
                }
            }
        }
    } else {
        let rest = s.drop_first();
        assert(sorted_desc(rest));
        lemma_insert_desc_sorted(x, rest);
        let ir = insert_desc(x, rest);
        assert(r.drop_first() =~= ir);
        lemma_cons_multiset(r);
        lemma_cons_multiset(s);
        assert(r.to_multiset() =~= s.to_multiset().insert(x));
        lemma_chars_lt_asym(x.0, s[0].0);
        assert forall|i: int, j: int| 0 <= i < j < r.len() implies !chars_lt(
            (#[trigger] r[i]).0,
            (#[trigger] r[j]).0,
        ) by {
            if i == 0 {
                let e = r[j];
                assert(ir.contains(e)) by {
                    assert(ir[j - 1] == e);
                }
                assert(ir.to_multiset().count(e) > 0);
                if e != x {
                    assert(rest.to_multiset().count(e) > 0);
                    assert(rest.contains(e));
                    let k = choose|k: int| 0 <= k < rest.len() && rest[k] == e;
                    assert(s[k + 1] == e);
                }
            }
        }
    }
}

/// The parser's ordering pass: the pairs it hands on are exactly the pairs
/// it was given, by descending key, so every key is applied before the
/// keys it extends.
pub proof fn lemma_sort_desc_sorted(s: Seq<(Seq<char>, Seq<char>)>)
    ensures
        sorted_desc(sort_desc(s)),
        sort_desc(s).to_multiset() == s.to_multiset(),
        sort_desc(s).len() == s.len(),
    decreases s.len(),
{
    if s.len() > 0 {
        lemma_sort_desc_sorted(s.drop_first());
        lemma_insert_desc_sorted(s[0], sort_desc(s.drop_first()));
        lemma_cons_multiset(s);
    }
}

pub open spec fn keys_unique(fs: Seq<(Seq<char>, ValueView)>) -> bool {
    forall|i: int, j: int| 0 <= i < j < fs.len() ==> (#[trigger] fs[i]).0 != (#[trigger] fs[j]).0
}

/// Well-formedness of a tree: every object in it keeps its keys unique.
pub open spec fn wf(v: ValueView) -> bool
    decreases v,
{
    match v {
        ValueView::Object(fs) => keys_unique(fs) && (forall|i: int|
            0 <= i < fs.len() ==> wf((#[trigger] fs[i]).1)),
        ValueView::Array(es) => forall|i: int| 0 <= i < es.len() ==> wf(#[trigger] es[i]),
        _ => true,
    }
}

/// Where a key is present, some first field holds it.
proof fn lemma_obj_first_match(fs: Seq<(Seq<char>, ValueView)>, k: Seq<char>)
    requires
        obj_get(fs, k) is Some,
    ensures
        exists|j: int|
            0 <= j < fs.len() && (#[trigger] fs[j]).0 == k && (forall|i: int|
                0 <= i < j ==> (#[trigger] fs[i]).0 != k),
    decreases fs.len(),
{
    if fs.len() > 0 && fs[0].0 != k {
        lemma_obj_first_match(fs.skip(1), k);
        let j0 = choose|j: int|
            0 <= j < fs.skip(1).len() && (#[trigger] fs.skip(1)[j]).0 == k && (forall|i: int|
                0 <= i < j ==> (#[trigger] fs.skip(1)[i]).0 != k);
        assert(fs[j0 + 1].0 == k);
        assert(forall|i: int| 0 <= i < j0 + 1 ==> (#[trigger] fs[i]).0 != k) by {
            assert(forall|i: int| 1 <= i < j0 + 1 ==> fs[i] == fs.skip(1)[i - 1]);
        }
    }
}

/// Writing one field keeps keys unique and every value well-formed.
proof fn lemma_obj_set_wf(fs: Seq<(Seq<char>, ValueView)>, k: Seq<char>, v: ValueView)
    requires
        keys_unique(fs),
        forall|i: int| 0 <= i < fs.len() ==> wf((#[trigger] fs[i]).1),
        wf(v),
    ensures
        keys_unique(obj_set(fs, k, v)),
        forall|i: int|
            0 <= i < obj_set(fs, k, v).len() ==> wf((#[trigger] obj_set(fs, k, v)[i]).1),
{
    let r = obj_set(fs, k, v);
    match obj_get(fs, k) {
        Some(_) => {
            lemma_obj_first_match(fs, k);
            let j = choose|j: int|
                0 <= j < fs.len() && (#[trigger] fs[j]).0 == k && (forall|i: int|
                    0 <= i < j ==> (#[trigger] fs[i]).0 != k);
            lemma_obj_set_update(fs, k, v, j);
            assert(forall|i: int| 0 <= i < r.len() && i != j ==> r[i] == fs[i]);
        },
        None => {
            assert forall|i: int| 0 <= i < fs.len() implies (#[trigger] fs[i]).0 != k by {
                lemma_obj_get_no_key(fs, k, i);
            }
            lemma_obj_set_push(fs, k, v);
        },
    }
}

/// The tree a carried part stands for on its own is well-formed when its
/// content is.
proof fn lemma_part_value_wf(p: PartView)
    requires
        wf_part(p),
    ensures
        wf(part_value(p)),
{
    match p {
        PartView::Object(v) => {},
        PartView::Item(n, v) => {
            let es = Seq::new(n as nat, |k: int| ValueView::Null).push(v);
            assert forall|i: int| 0 <= i < es.len() implies wf(#[trigger] es[i]) by {
                if i < es.len() - 1 {
                    assert(es[i] == ValueView::Null);
                } else {
                    assert(es[i] == v);
                }
            }
        },
    }
}

/// Well-formedness of a carried part: its content is well-formed, and an
/// array item addresses a real slot.
pub open spec fn wf_part(p: PartView) -> bool {
    match p {
        PartView::Object(v) => wf(v),
        PartView::Item(n, v) => n >= 0 && wf(v),
    }
}

/// The node an existing path resolves to is well-formed in a well-formed
/// tree.
proof fn lemma_resolve_wf(t: ValueView, path: Seq<SegView>, i: int, upto: int)
    requires
        wf(t),
        resolve_at(t, path, i, upto) is Some,
    ensures
        wf(resolve_at(t, path, i, upto)->0),
    decreases upto - i,
{
    if i < 0 || i >= upto || i >= path.len() {
    } else {
        match path[i] {
            SegView::Field(k) => match t {
                ValueView::Object(fs) => {
                    lemma_obj_first_match(fs, k);
                    let j = choose|j: int|
                        0 <= j < fs.len() && (#[trigger] fs[j]).0 == k && (forall|jj: int|
                            0 <= jj < j ==> (#[trigger] fs[jj]).0 != k);
                    lemma_obj_get_at_first(fs, k, j);
                    lemma_resolve_wf(fs[j].1, path, i + 1, upto);
                },
                _ => {},
            },
            SegView::Index(n) => match t {
                ValueView::Array(es) => {
                    if 0 <= n < es.len() {
                        lemma_resolve_wf(es[n], path, i + 1, upto);
                    }
                },
                _ => {},
            },
        }
    }
}

/// What `obj_get` yields is the value at the first matching field.
proof fn lemma_obj_get_at_first(fs: Seq<(Seq<char>, ValueView)>, k: Seq<char>, j: int)
    requires
        0 <= j < fs.len(),
        fs[j].0 == k,
        forall|i: int| 0 <= i < j ==> (#[trigger] fs[i]).0 != k,
    ensures
        obj_get(fs, k) == Some(fs[j].1),
    decreases j,
{
    if j > 0 {
        assert(fs.skip(1)[j - 1] == fs[j]);
        assert(forall|i: int| 0 <= i < j - 1 ==> fs.skip(1)[i] == fs[i + 1]);
        lemma_obj_get_at_first(fs.skip(1), k, j - 1);
    }
}

/// Merging a well-formed part into a well-formed node yields a well-formed
/// node.
proof fn lemma_merge_wf(ex: ValueView, p: PartView, m: ValueView)
    requires
        wf(ex),
        wf_part(p),
        merge_into(ex, p) == Ok::<ValueView, Error>(m),
    ensures
        wf(m),
{
    match p {
        PartView::Object(v) => match ex {
            ValueView::Object(fs) => match v {
                ValueView::Object(pfs) => {
                    assert(wf(pfs[0].1));
                    lemma_obj_set_wf(fs, pfs[0].0, pfs[0].1);
                },
                _ => {},
            },
            _ => {},
        },
        PartView::Item(n, v) => match ex {
            ValueView::Array(es) => {
                if 0 <= n < usize::MAX {
                    let r = arr_set_pad(es, n, v);
                    assert forall|i: int| 0 <= i < r.len() implies wf(#[trigger] r[i]) by {
                        if n < es.len() {
                            if i == n {
                                assert(r[i] == v);
                            } else {
                                assert(r[i] == es[i]);
                            }
                        } else {
                            if i < es.len() {
                                assert(r[i] == es[i]);
                            } else if i < n {
                                assert(r[i] == ValueView::Null);
                            } else {
                                assert(r[i] == v);
                            }
                        }
                    }
                }
            },
            _ => {},
        },
    }
}

/// Replacing the node under a resolving path with a well-formed value
/// keeps the tree well-formed.
proof fn lemma_replace_wf(t: ValueView, path: Seq<SegView>, i: int, upto: int, nv: ValueView)
    requires
        wf(t),
        wf(nv),
        resolve_at(t, path, i, upto) is Some,
    ensures
        wf(replace_at(t, path, i, upto, nv)),
    decreases upto - i,
{
    if i < 0 || i >= upto || i >= path.len() {
    } else {
        match path[i] {
            SegView::Field(k) => match t {
                ValueView::Object(fs) => {
                    lemma_obj_first_match(fs, k);
                    let j = choose|j: int|
                        0 <= j < fs.len() && (#[trigger] fs[j]).0 == k && (forall|jj: int|
                            0 <= jj < j ==> (#[trigger] fs[jj]).0 != k);
                    lemma_obj_get_at_first(fs, k, j);
                    lemma_replace_wf(fs[j].1, path, i + 1, upto, nv);
                    lemma_obj_set_wf(fs, k, replace_at(fs[j].1, path, i + 1, upto, nv));
                },
                _ => {},
            },
            SegView::Index(n) => match t {
                ValueView::Array(es) => {
                    if 0 <= n < es.len() {
                        lemma_replace_wf(es[n], path, i + 1, upto, nv);
                        let r = es.update(n, replace_at(es[n], path, i + 1, upto, nv));
                        assert forall|i2: int| 0 <= i2 < r.len() implies wf(#[trigger] r[i2]) by {
                            if i2 != n {
                                assert(r[i2] == es[i2]);
                            }
                        }
                    }
                },
                _ => {},
            },
        }
    }
}

/// The engine only ever carries well-formed content.
proof fn lemma_carried_wf(parts: Seq<Seq<char>>, cv: ValueView, i: int)
    requires
        wf(cv),
    ensures
        wf_part(carried(parts, cv, i)),
    decreases parts.len() - i,
{
    if i >= parts.len() - 1 || i < 0 {
    } else {
        lemma_carried_wf(parts, cv, i + 1);
        lemma_part_value_wf(carried(parts, cv, i + 1));
        lemma_seg_index_nonneg(parts[i + 1]);
        match seg_of(parts[i + 1]) {
            SegView::Field(k) => {
                let w = part_value(carried(parts, cv, i + 1));
                assert(wf(ValueView::Object(seq![(k, w)]))) by {
                    assert(seq![(k, w)][0].1 == w);
                }
            },
            SegView::Index(n) => {},
        }
    }
}

/// The merge engine keeps a well-formed tree well-formed.
proof fn lemma_splice_rec_wf(t: ValueView, parts: Seq<Seq<char>>, cv: ValueView, i: int)
    requires
        wf(t),
        wf(cv),
        0 <= i < parts.len(),
        splice_rec(t, parts, i, carried(parts, cv, i)) is Ok,
    ensures
        wf(splice_rec(t, parts, i, carried(parts, cv, i))->Ok_0),
    decreases i,
{
    let path = segs_of(parts);
    let p = carried(parts, cv, i);
    lemma_carried_wf(parts, cv, i);
    match resolve_at(t, path, 0, i + 1) {
        Some(ex) => {
            lemma_resolve_wf(t, path, 0, i + 1);
            let m = merge_into(ex, p)->Ok_0;
            lemma_merge_wf(ex, p, m);
            lemma_replace_wf(t, path, 0, i + 1, m);
        },
        None => {
            if i == 0 {
                match t {
                    ValueView::Object(fs) => {
                        lemma_part_value_wf(p);
                        lemma_obj_set_wf(fs, parts[0], part_value(p));
                    },
                    _ => {},
                }
            } else {
                assert(wrap_part(parts[i], p) == carried(parts, cv, i - 1));
                lemma_splice_rec_wf(t, parts, cv, i - 1);
            }
        },
    }
}

/// Splicing keeps every object's keys unique: a well-formed tree stays
/// well-formed.
pub proof fn lemma_splice_wf(t: ValueView, parts: Seq<Seq<char>>, cv: ValueView)
    requires
        wf(t),
        wf(cv),
        splice_spec(t, parts, cv) is Ok,
    ensures
        wf(splice_spec(t, parts, cv)->Ok_0),
{
    if parts.len() == 0 {
    } else if parts.len() == 1 {
        match t {
            ValueView::Object(fs) => {
                lemma_obj_set_wf(fs, parts[0], cv);
            },
            _ => {},
        }
    } else {
        lemma_splice_rec_wf(t, parts, cv, parts.len() - 1);
    }
}

/// Two characters with one code point are one character.
proof fn lemma_char_code_inj(a: char, b: char)
    requires
        a as u32 == b as u32,
    ensures
        a == b,
{
}

/// The strict lexicographic order is total: distinct sequences compare
/// one way or the other.
proof fn lemma_chars_lt_total(a: Seq<char>, b: Seq<char>)
    requires
        a != b,
    ensures
        chars_lt(a, b) || chars_lt(b, a),
    decreases a.len(),
{
    if a.len() == 0 {
        assert(b.len() > 0) by {
            if b.len() == 0 {
                assert(a =~= b);
            }
        }
    } else if b.len() == 0 {
    } else if (a[0] as u32) == (b[0] as u32) {
        lemma_char_code_inj(a[0], b[0]);
        assert(a.skip(1) != b.skip(1)) by {
            if a.skip(1) == b.skip(1) {
                assert(a.len() == b.len()) by {
                    assert(a.skip(1).len() == a.len() - 1);
                    assert(b.skip(1).len() == b.len() - 1);
                }
                assert forall|i: int| 0 <= i < a.len() implies a[i] == b[i] by {
                    if i > 0 {
                        assert(a.skip(1)[i - 1] == a[i]);
                        assert(b.skip(1)[i - 1] == b[i]);
                    }
                }
                assert(a =~= b);
            }
        }
        lemma_chars_lt_total(a.skip(1), b.skip(1));
    }
}

/// Whether every key in a pair sequence occurs once.
pub open spec fn distinct_keys(s: Seq<(Seq<char>, Seq<char>)>) -> bool {
    forall|i: int, j: int| 0 <= i < j < s.len() ==> (#[trigger] s[i]).0 != (#[trigger] s[j]).0
}

/// A pair counted in a sequence's multiset stands in it.
proof fn lemma_ms_mem(s: Seq<(Seq<char>, Seq<char>)>, x: (Seq<char>, Seq<char>))
    requires
        s.to_multiset().count(x) > 0,
    ensures
        s.contains(x),
{
    broadcast use vstd::seq_lib::group_to_multiset_ensures;

}

/// A pair standing at two positions is counted at least twice.
proof fn lemma_two_indices_count(s: Seq<(Seq<char>, Seq<char>)>, i: int, j: int)
    requires
        0 <= i < j < s.len(),
        s[i] == s[j],
    ensures
        s.to_multiset().count(s[i]) >= 2,
{
    broadcast use vstd::seq_lib::group_to_multiset_ensures;
    broadcast use vstd::multiset::group_multiset_axioms;

    assert(s.remove(j).to_multiset() == s.to_multiset().remove(s[j]));
    assert(s.remove(j)[i] == s[i]);
    assert(s.remove(j).contains(s[i]));
    assert(s.remove(j).to_multiset().count(s[i]) > 0);
}

/// A pair counted at least twice stands at two positions.
proof fn lemma_count_two_indices(s: Seq<(Seq<char>, Seq<char>)>, x: (Seq<char>, Seq<char>))
    requires
        s.to_multiset().count(x) >= 2,
    ensures
        exists|i: int, j: int| 0 <= i < j < s.len() && (#[trigger] s[i]) == x && (#[trigger] s[j])
            == x,
{
    broadcast use vstd::seq_lib::group_to_multiset_ensures;
    broadcast use vstd::multiset::group_multiset_axioms;

    lemma_ms_mem(s, x);
    let i = choose|i: int| 0 <= i < s.len() && s[i] == x;
    assert(s.remove(i).to_multiset() == s.to_multiset().remove(x));
    assert(s.remove(i).to_multiset().count(x) > 0);
    lemma_ms_mem(s.remove(i), x);
    let k = choose|k: int| 0 <= k < s.remove(i).len() && s.remove(i)[k] == x;
    let j = if k < i {
        k
    } else {
        k + 1
    };
    assert(s[j] == x);
    assert(j != i);
    if i < j {
        assert(s[i] == x && s[j] == x);
    } else {
        assert(s[j] == x && s[i] == x);
    }
}

/// Distinct keys carry across to any permutation of the pairs.
proof fn lemma_distinct_keys_transfer(
    s1: Seq<(Seq<char>, Seq<char>)>,
    s2: Seq<(Seq<char>, Seq<char>)>,
)
    requires
        distinct_keys(s1),
        s1.to_multiset() == s2.to_multiset(),
    ensures
        distinct_keys(s2),
{
    broadcast use vstd::seq_lib::group_to_multiset_ensures;

    assert forall|i: int, j: int| 0 <= i < j < s2.len() implies (#[trigger] s2[i]).0 != (
    #[trigger] s2[j]).0 by {
        if s2[i].0 == s2[j].0 {
            if s2[i] == s2[j] {
                lemma_two_indices_count(s2, i, j);
                lemma_count_two_indices(s1, s2[i]);
                let (p, q): (int, int) = choose|p: int, q: int|
                    0 <= p < q < s1.len() && (#[trigger] s1[p]) == s2[i] && (#[trigger] s1[q])
                        == s2[i];
                assert(s1[p].0 == s1[q].0);
            } else {
                assert(s2.contains(s2[i]));
                assert(s2.contains(s2[j]));
                assert(s1.to_multiset().count(s2[i]) > 0);
                assert(s1.to_multiset().count(s2[j]) > 0);
                lemma_ms_mem(s1, s2[i]);
                lemma_ms_mem(s1, s2[j]);
                let p = choose|p: int| 0 <= p < s1.len() && s1[p] == s2[i];
                let q = choose|q: int| 0 <= q < s1.len() && s1[q] == s2[j];
                assert(p != q);
                if p < q {
                    assert(s1[p].0 != s1[q].0);
                } else {
                    assert(s1[q].0 != s1[p].0);
                }
            }
        }
    }
}

/// Sequences sorted by descending key that hold the same pairs, with
/// every key occurring once, are the same sequence.
proof fn lemma_sorted_unique(s1: Seq<(Seq<char>, Seq<char>)>, s2: Seq<(Seq<char>, Seq<char>)>)
    requires
        sorted_desc(s1),
        sorted_desc(s2),
        distinct_keys(s1),
        s1.to_multiset() == s2.to_multiset(),
    ensures
        s1 == s2,
    decreases s1.len(),
{
    broadcast use vstd::seq_lib::group_to_multiset_ensures;
    broadcast use vstd::multiset::group_multiset_axioms;

    assert(s1.len() == s2.len()) by {
        assert(s1.len() == s1.to_multiset().len());
        assert(s2.len() == s2.to_multiset().len());
    }
    if s1.len() == 0 {
        assert(s1 =~= s2);
    } else {
        assert(s2.contains(s2[0]));
        assert(s1.to_multiset().count(s2[0]) > 0);
        lemma_ms_mem(s1, s2[0]);
        let k = choose|k: int| 0 <= k < s1.len() && s1[k] == s2[0];
        assert(s1.contains(s1[0]));
        assert(s2.to_multiset().count(s1[0]) > 0);
        lemma_ms_mem(s2, s1[0]);
        let m = choose|m: int| 0 <= m < s2.len() && s2[m] == s1[0];
        if s1[0] != s2[0] {
            if s1[0].0 != s2[0].0 {
                lemma_chars_lt_total(s1[0].0, s2[0].0);
                if chars_lt(s1[0].0, s2[0].0) {
                    assert(k > 0);
                    assert(!chars_lt(s1[0].0, s1[k].0));
                } else {
                    assert(m > 0);
                    assert(!chars_lt(s2[0].0, s2[m].0));
                }
            } else {
                assert(k != 0);
                assert(s1[0].0 != s1[k].0);
            }
        }
        assert(s1[0] == s2[0]);
        lemma_cons_multiset(s1);
        lemma_cons_multiset(s2);
        let t1 = s1.drop_first();
        let t2 = s2.drop_first();
        assert(t1.to_multiset() =~= t2.to_multiset()) by {
            assert forall|y: (Seq<char>, Seq<char>)|
                t1.to_multiset().count(y) == t2.to_multiset().count(y) by {
                assert(t1.to_multiset().insert(s1[0]).count(y) == t2.to_multiset().insert(
                    s2[0],
                ).count(y));
            }
        }
        assert(sorted_desc(t1)) by {
            assert(forall|i: int| 0 <= i < t1.len() ==> #[trigger] t1[i] == s1[i + 1]);
        }
        assert(sorted_desc(t2)) by {
            assert(forall|i: int| 0 <= i < t2.len() ==> #[trigger] t2[i] == s2[i + 1]);
        }
        assert(distinct_keys(t1)) by {
            assert(forall|i: int| 0 <= i < t1.len() ==> #[trigger] t1[i] == s1[i + 1]);
        }
        lemma_sorted_unique(t1, t2);
        assert forall|i: int| 0 <= i < s1.len() implies s1[i] == s2[i] by {
            if i > 0 {
                assert(t1[i - 1] == s1[i]);
                assert(t2[i - 1] == s2[i]);
            }
        }
        assert(s1 =~= s2);
    }
}

/// Removing one pair removes, from the filtered output, exactly what that
/// pair contributed.
proof fn lemma_filter_remove(
    prefix: Option<Seq<char>>,
    inc: Seq<regex::Regex>,
    exc: Seq<regex::Regex>,
    s: Seq<(Seq<char>, Seq<char>)>,
    k: int,
)
    requires
        0 <= k < s.len(),
    ensures
        keep_pair(prefix, inc, exc, s[k].0) ==> filter_pairs(prefix, inc, exc, s).to_multiset()
            == filter_pairs(prefix, inc, exc, s.remove(k)).to_multiset().insert(
            (strip_key(prefix, s[k].0), s[k].1),
        ),
        !keep_pair(prefix, inc, exc, s[k].0) ==> filter_pairs(prefix, inc, exc, s).to_multiset()
            == filter_pairs(prefix, inc, exc, s.remove(k)).to_multiset(),
    decreases k,
{
    broadcast use vstd::seq_lib::group_to_multiset_ensures;
    broadcast use vstd::multiset::group_multiset_axioms;

    let f = filter_pairs(prefix, inc, exc, s);
    if k == 0 {
        assert(s.remove(0) =~= s.drop_first());
        if keep_pair(prefix, inc, exc, s[0].0) {
            assert(f.drop_first() =~= filter_pairs(prefix, inc, exc, s.drop_first()));
            assert(f[0] == (strip_key(prefix, s[0].0), s[0].1));
            lemma_cons_multiset(f);
        }
    } else {
        assert(s.remove(k).drop_first() =~= s.drop_first().remove(k - 1));
        assert(s.remove(k)[0] == s[0]);
        assert(s.drop_first()[k - 1] == s[k]);
        lemma_filter_remove(prefix, inc, exc, s.drop_first(), k - 1);
        let fr = filter_pairs(prefix, inc, exc, s.drop_first());
        let frk = filter_pairs(prefix, inc, exc, s.drop_first().remove(k - 1));
        let fk = filter_pairs(prefix, inc, exc, s.remove(k));
        let p0 = (strip_key(prefix, s[0].0), s[0].1);
        let pk = (strip_key(prefix, s[k].0), s[k].1);
        if keep_pair(prefix, inc, exc, s[0].0) {
            assert(f.drop_first() =~= fr);
            assert(f[0] == p0);
            lemma_cons_multiset(f);
            assert(fk.drop_first() =~= frk);
            assert(fk[0] == p0);
            lemma_cons_multiset(fk);
            if keep_pair(prefix, inc, exc, s[k].0) {
                assert(frk.to_multiset().insert(pk).insert(p0) =~= frk.to_multiset().insert(
                    p0,
                ).insert(pk));
            }
        } else {
            assert(f =~= fr);
            assert(fk =~= frk);
        }
    }
}

/// Filtering a permutation of the pairs filters to a permutation.
proof fn lemma_filter_pairs_multiset(
    prefix: Option<Seq<char>>,
    inc: Seq<regex::Regex>,
    exc: Seq<regex::Regex>,
    s1: Seq<(Seq<char>, Seq<char>)>,
    s2: Seq<(Seq<char>, Seq<char>)>,
)
    requires
        s1.to_multiset() == s2.to_multiset(),
    ensures
        filter_pairs(prefix, inc, exc, s1).to_multiset() == filter_pairs(
            prefix,
            inc,
            exc,
            s2,
        ).to_multiset(),
    decreases s1.len(),
{
    broadcast use vstd::seq_lib::group_to_multiset_ensures;
    broadcast use vstd::multiset::group_multiset_axioms;

    assert(s1.len() == s2.len()) by {
        assert(s1.len() == s1.to_multiset().len());
        assert(s2.len() == s2.to_multiset().len());
    }
    if s1.len() == 0 {
        assert(s2 =~= s1);
    } else {
        let x = s1[0];
        assert(s1.contains(x));
        assert(s2.to_multiset().count(x) > 0);
        lemma_ms_mem(s2, x);
        let k = choose|k: int| 0 <= k < s2.len() && s2[k] == x;
        lemma_cons_multiset(s1);
        assert(s2.remove(k).to_multiset() == s2.to_multiset().remove(x));
        assert(s1.drop_first().to_multiset() =~= s2.remove(k).to_multiset()) by {
            assert forall|y: (Seq<char>, Seq<char>)|
                s1.drop_first().to_multiset().count(y) == s2.remove(k).to_multiset().count(
                    y,
                ) by {
                assert(s1.drop_first().to_multiset().insert(x).count(y) == s2.to_multiset().count(
                    y,
                ));
            }
        }
        lemma_filter_pairs_multiset(prefix, inc, exc, s1.drop_first(), s2.remove(k));
        lemma_filter_remove(prefix, inc, exc, s2, k);
        let f1 = filter_pairs(prefix, inc, exc, s1);
        if keep_pair(prefix, inc, exc, x.0) {
            assert(f1.drop_first() =~= filter_pairs(prefix, inc, exc, s1.drop_first()));
            assert(f1[0] == (strip_key(prefix, x.0), x.1));
            lemma_cons_multiset(f1);
        } else {
            assert(f1 =~= filter_pairs(prefix, inc, exc, s1.drop_first()));
        }
    }
}

/// A common prefix and an equal remainder make keys equal.
proof fn lemma_strip_inj(pf: Seq<char>, k1: Seq<char>, k2: Seq<char>)
    requires
        pf.is_prefix_of(k1),
        pf.is_prefix_of(k2),
        k1.skip(pf.len() as int) == k2.skip(pf.len() as int),
    ensures
        k1 == k2,
{
    assert(k1.len() == k2.len()) by {
        assert(k1.skip(pf.len() as int).len() == k1.len() - pf.len());
        assert(k2.skip(pf.len() as int).len() == k2.len() - pf.len());
    }
    assert forall|i: int| 0 <= i < k1.len() implies k1[i] == k2[i] by {
        if i < pf.len() {
            assert(k1.subrange(0, pf.len() as int)[i] == k1[i]);
            assert(k2.subrange(0, pf.len() as int)[i] == k2[i]);
        } else {
            assert(k1.skip(pf.len() as int)[i - pf.len()] == k1[i]);
            assert(k2.skip(pf.len() as int)[i - pf.len()] == k2[i]);
        }
    }
    assert(k1 =~= k2);
}

/// With distinct input keys the surviving stripped keys are distinct, and
/// every surviving pair has its source among the input pairs.
proof fn lemma_filter_distinct(
    prefix: Option<Seq<char>>,
    inc: Seq<regex::Regex>,
    exc: Seq<regex::Regex>,
    s: Seq<(Seq<char>, Seq<char>)>,
)
    requires
        distinct_keys(s),
    ensures
        distinct_keys(filter_pairs(prefix, inc, exc, s)),
        forall|j: int|
            0 <= j < filter_pairs(prefix, inc, exc, s).len() ==> exists|i: int|
                0 <= i < s.len() && keep_pair(prefix, inc, exc, (#[trigger] s[i]).0) && #[trigger] filter_pairs(
                    prefix,
                    inc,
                    exc,
                    s,
                )[j] == (strip_key(prefix, s[i].0), s[i].1),
    decreases s.len(),
{
    if s.len() == 0 {
    } else {
        let rest = s.drop_first();
        assert(distinct_keys(rest)) by {
            assert(forall|i: int| 0 <= i < rest.len() ==> #[trigger] rest[i] == s[i + 1]);
        }
        lemma_filter_distinct(prefix, inc, exc, rest);
        let f = filter_pairs(prefix, inc, exc, s);
        let fr = filter_pairs(prefix, inc, exc, rest);
        if keep_pair(prefix, inc, exc, s[0].0) {
            assert(f[0] == (strip_key(prefix, s[0].0), s[0].1));
            assert(forall|j: int| 1 <= j < f.len() ==> #[trigger] f[j] == fr[j - 1]);
            assert forall|j: int| 0 <= j < f.len() implies exists|i: int|
                0 <= i < s.len() && keep_pair(prefix, inc, exc, (#[trigger] s[i]).0)
                    && #[trigger] f[j] == (strip_key(prefix, s[i].0), s[i].1) by {
                if j == 0 {
                    assert(keep_pair(prefix, inc, exc, s[0].0) && f[0] == (
                        strip_key(prefix, s[0].0),
                        s[0].1,
                    ));
                } else {
                    let i0 = choose|i: int|
                        0 <= i < rest.len() && keep_pair(prefix, inc, exc, (#[trigger] rest[i]).0)
                            && fr[j - 1] == (strip_key(prefix, rest[i].0), rest[i].1);
                    assert(s[i0 + 1] == rest[i0]);
                    assert(keep_pair(prefix, inc, exc, s[i0 + 1].0) && f[j] == (
                        strip_key(prefix, s[i0 + 1].0),
                        s[i0 + 1].1,
                    ));
                }
            }
            assert forall|p: int, q: int| 0 <= p < q < f.len() implies (#[trigger] f[p]).0 != (
            #[trigger] f[q]).0 by {
                if p == 0 && f[p].0 == f[q].0 {
                    let i0 = choose|i: int|
                        0 <= i < rest.len() && keep_pair(prefix, inc, exc, (#[trigger] rest[i]).0)
                            && fr[q - 1] == (strip_key(prefix, rest[i].0), rest[i].1);
                    assert(s[i0 + 1] == rest[i0]);
                    assert(s[0].0 != s[i0 + 1].0);
                    match prefix {
                        Some(pf) => {
                            lemma_strip_inj(pf, s[0].0, s[i0 + 1].0);
                        },
                        None => {},
                    }
                }
            }
        } else {
            assert(f =~= fr);
            assert forall|j: int| 0 <= j < f.len() implies exists|i: int|
                0 <= i < s.len() && keep_pair(prefix, inc, exc, (#[trigger] s[i]).0)
                    && #[trigger] f[j] == (strip_key(prefix, s[i].0), s[i].1) by {
                let i0 = choose|i: int|
                    0 <= i < rest.len() && keep_pair(prefix, inc, exc, (#[trigger] rest[i]).0)
                        && fr[j] == (strip_key(prefix, rest[i].0), rest[i].1);
                assert(s[i0 + 1] == rest[i0]);
                assert(keep_pair(prefix, inc, exc, s[i0 + 1].0) && f[j] == (
                    strip_key(prefix, s[i0 + 1].0),
                    s[i0 + 1].1,
                ));
            }
        }
    }
}

/// A proper prefix comes before its extensions in the lexicographic
/// order.
proof fn lemma_prefix_chars_lt(a: Seq<char>, b: Seq<char>)
    requires
        a.is_prefix_of(b),
        a.len() < b.len(),
    ensures
        chars_lt(a, b),
    decreases a.len(),
{
    if a.len() > 0 {
        assert(a[0] == b.subrange(0, a.len() as int)[0]);
        assert(a.skip(1).is_prefix_of(b.skip(1))) by {
            assert forall|i: int| 0 <= i < a.skip(1).len() implies a.skip(1)[i] == b.skip(
                1,
            ).subrange(0, a.skip(1).len() as int)[i] by {
                assert(a.skip(1)[i] == a[i + 1]);
                assert(a[i + 1] == b.subrange(0, a.len() as int)[i + 1]);
            }
            assert(a.skip(1) =~= b.skip(1).subrange(0, a.skip(1).len() as int));
        }
        lemma_prefix_chars_lt(a.skip(1), b.skip(1));
    }
}

/// In a sequence sorted by descending key, no key is a proper prefix of a
/// later key: the extension is always processed first.
pub proof fn lemma_prefix_processed_after_extension(
    s: Seq<(Seq<char>, Seq<char>)>,
    i: int,
    j: int,
)
    requires
        sorted_desc(s),
        0 <= i < j < s.len(),
    ensures
        !(s[i].0.is_prefix_of(s[j].0) && s[i].0.len() < s[j].0.len()),
{
    if s[i].0.is_prefix_of(s[j].0) && s[i].0.len() < s[j].0.len() {
        lemma_prefix_chars_lt(s[i].0, s[j].0);
    }
}

/// The parse result does not depend on the order the pairs arrive in,
/// as long as every key occurs once: the engine's own descending sort
/// fixes the processing order, so a permutation of the pairs parses to
/// the same tree or the same error.
pub proof fn lemma_parse_order_independent(
    prefix: Option<Seq<char>>,
    sep: Seq<char>,
    inc: Seq<regex::Regex>,
    exc: Seq<regex::Regex>,
    seed: ValueView,
    pairs1: Seq<(Seq<char>, Seq<char>)>,
    pairs2: Seq<(Seq<char>, Seq<char>)>,
)
    requires
        distinct_keys(pairs1),
        pairs1.to_multiset() == pairs2.to_multiset(),
    ensures
        parse_spec(prefix, sep, inc, exc, seed, pairs1) == parse_spec(
            prefix,
            sep,
            inc,
            exc,
            seed,
            pairs2,
        ),
{
    let f1 = filter_pairs(prefix, inc, exc, pairs1);
    let f2 = filter_pairs(prefix, inc, exc, pairs2);
    lemma_filter_pairs_multiset(prefix, inc, exc, pairs1, pairs2);
    lemma_filter_distinct(prefix, inc, exc, pairs1);
    lemma_sort_desc_sorted(f1);
    lemma_sort_desc_sorted(f2);
    lemma_distinct_keys_transfer(f1, sort_desc(f1));
    lemma_sorted_unique(sort_desc(f1), sort_desc(f2));
}

/// Applying one pair to a well-formed tree yields a well-formed tree.
pub proof fn lemma_apply_pair_wf(t: ValueView, key: Seq<char>, raw: Seq<char>, sep: Seq<char>)
    requires
        wf(t),
        apply_pair(t, key, raw, sep) is Ok,
    ensures
        wf(apply_pair(t, key, raw, sep)->Ok_0),
{
    lemma_coerce_scalar(raw);
    let cv = coerce_spec(raw)->Ok_0;
    lemma_splice_wf(t, parts_spec(key, sep), cv);
}

proof fn lemma_apply_all_wf(t: ValueView, pairs: Seq<(Seq<char>, Seq<char>)>, sep: Seq<char>)
    requires
        wf(t),
        apply_all(t, pairs, sep) is Ok,
    ensures
        wf(apply_all(t, pairs, sep)->Ok_0),
    decreases pairs.len(),
{
    if pairs.len() > 0 {
        lemma_apply_pair_wf(t, pairs[0].0, pairs[0].1, sep);
        lemma_apply_all_wf(
            apply_pair(t, pairs[0].0, pairs[0].1, sep)->Ok_0,
            pairs.drop_first(),
            sep,
        );
    }
}

/// A parse that starts from a well-formed seed yields a well-formed tree:
/// every object's keys stay unique throughout.
pub proof fn lemma_parse_wf(
    prefix: Option<Seq<char>>,
    sep: Seq<char>,
    inc: Seq<regex::Regex>,
    exc: Seq<regex::Regex>,
    seed: ValueView,
    pairs: Seq<(Seq<char>, Seq<char>)>,
)
    requires
        wf(seed),
        parse_spec(prefix, sep, inc, exc, seed, pairs) is Ok,
    ensures
        wf(parse_spec(prefix, sep, inc, exc, seed, pairs)->Ok_0),
{
    lemma_apply_all_wf(seed, sort_desc(filter_pairs(prefix, inc, exc, pairs)), sep);
}

/// Applying one key and raw value to a tree twice yields the same tree as
/// applying it once: re-application is idempotent.
pub proof fn lemma_apply_pair_idempotent(
    t: ValueView,
    key: Seq<char>,
    raw: Seq<char>,
    sep: Seq<char>,
)
    requires
        apply_pair(t, key, raw, sep) is Ok,
    ensures
        apply_pair(apply_pair(t, key, raw, sep)->Ok_0, key, raw, sep) == apply_pair(
            t,
            key,
            raw,
            sep,
        ),
{
    let cv = coerce_spec(raw)->Ok_0;
    lemma_coerce_scalar(raw);
    lemma_splice_idempotent(t, parts_spec(key, sep), cv);
}


} // verus!
