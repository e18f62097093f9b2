//! The merge engine: walks a decoded path bottom-up, reuses whatever tree
//! structure already exists, fabricates object or array wrappers where none
//! does, and grafts the result into the shared tree.

use vstd::prelude::*;
use crate::Error;
use crate::keypath::JsonIndex;
use crate::keypath::SegView;
use crate::keypath::seg_of;
use crate::value::Value;
use crate::value::ValueView;
use crate::value::value_view;
use crate::value::elem_views;
use crate::value::field_views;
use crate::value::lemma_elem_views_index;
use crate::value::lemma_field_views_index;

verus! {

/// The value under the first field named `k`, if any.
pub open spec fn obj_get(fs: Seq<(Seq<char>, ValueView)>, k: Seq<char>) -> Option<ValueView>
    decreases fs.len(),
{
    if fs.len() == 0 {
        None
    } else if fs[0].0 == k {
        Some(fs[0].1)
    } else {
        obj_get(fs.skip(1), k)
    }
}

/// Writes `v` under `k`: the first field named `k` is replaced in place,
/// or a new field is appended.
pub open spec fn obj_set(fs: Seq<(Seq<char>, ValueView)>, k: Seq<char>, v: ValueView) -> Seq<
    (Seq<char>, ValueView),
>
    decreases fs.len(),
{
    if fs.len() == 0 {
        seq![(k, v)]
    } else if fs[0].0 == k {
        seq![(k, v)].add(fs.skip(1))
    } else {
        seq![fs[0]].add(obj_set(fs.skip(1), k, v))
    }
}

pub proof fn lemma_obj_get_skip(fs: Seq<(Seq<char>, ValueView)>, k: Seq<char>, i: int)
    requires
        0 <= i <= fs.len(),
        forall|j: int| 0 <= j < i ==> (#[trigger] fs[j]).0 != k,
    ensures
        obj_get(fs, k) == obj_get(fs.skip(i), k),
    decreases i,
{
    if i > 0 {
        assert(fs.skip(1).skip(i - 1) =~= fs.skip(i));
        assert forall|j: int| 0 <= j < i - 1 implies (#[trigger] fs.skip(1)[j]).0 != k by {
            assert(fs.skip(1)[j] == fs[j + 1]);
        }
        lemma_obj_get_skip(fs.skip(1), k, i - 1);
    } else {
        assert(fs.skip(0) =~= fs);
    }
}

/// Where the first field named `k` stands at `i`, `obj_set` is an update in
/// place.
pub proof fn lemma_obj_set_update(
    fs: Seq<(Seq<char>, ValueView)>,
    k: Seq<char>,
    v: ValueView,
    i: int,
)
    requires
        0 <= i < fs.len(),
        fs[i].0 == k,
        forall|j: int| 0 <= j < i ==> (#[trigger] fs[j]).0 != k,
    ensures
        obj_set(fs, k, v) == fs.update(i, (k, v)),
    decreases i,
{
    if i == 0 {
        assert(seq![(k, v)].add(fs.skip(1)) =~= fs.update(0, (k, v)));
    } else {
        assert forall|j: int| 0 <= j < i - 1 implies (#[trigger] fs.skip(1)[j]).0 != k by {
            assert(fs.skip(1)[j] == fs[j + 1]);
        }
        assert(fs.skip(1)[i - 1] == fs[i]);
        lemma_obj_set_update(fs.skip(1), k, v, i - 1);
        assert(seq![fs[0]].add(fs.skip(1).update(i - 1, (k, v))) =~= fs.update(i, (k, v)));
    }
}

/// Where no field is named `k`, `obj_set` appends.
pub proof fn lemma_obj_set_push(fs: Seq<(Seq<char>, ValueView)>, k: Seq<char>, v: ValueView)
    requires
        forall|j: int| 0 <= j < fs.len() ==> (#[trigger] fs[j]).0 != k,
    ensures
        obj_set(fs, k, v) == fs.push((k, v)),
    decreases fs.len(),
{
    if fs.len() == 0 {
        assert(seq![(k, v)] =~= fs.push((k, v)));
    } else {
        assert forall|j: int| 0 <= j < fs.skip(1).len() implies (#[trigger] fs.skip(1)[j]).0
            != k by {
            assert(fs.skip(1)[j] == fs[j + 1]);
        }
        lemma_obj_set_push(fs.skip(1), k, v);
        assert(seq![fs[0]].add(fs.skip(1).push((k, v))) =~= fs.push((k, v)));
    }
}

pub proof fn lemma_field_views_update(s: Seq<(String, Value)>, i: int, p: (String, Value))
    requires
        0 <= i < s.len(),
    ensures
        field_views(s.update(i, p)) == field_views(s).update(i, (p.0@, value_view(p.1))),
{
    lemma_field_views_index(s);
    lemma_field_views_index(s.update(i, p));
    let lhs = field_views(s.update(i, p));
    let rhs = field_views(s).update(i, (p.0@, value_view(p.1)));
    assert forall|j: int| 0 <= j < lhs.len() implies lhs[j] == rhs[j] by {
        if j == i {
            assert(s.update(i, p)[j] == p);
        } else {
            assert(s.update(i, p)[j] == s[j]);
        }
    }
    assert(lhs =~= rhs);
}

pub proof fn lemma_field_views_push(s: Seq<(String, Value)>, p: (String, Value))
    ensures
        field_views(s.push(p)) == field_views(s).push((p.0@, value_view(p.1))),
{
    lemma_field_views_index(s);
    lemma_field_views_index(s.push(p));
    let lhs = field_views(s.push(p));
    let rhs = field_views(s).push((p.0@, value_view(p.1)));
    assert forall|j: int| 0 <= j < lhs.len() implies lhs[j] == rhs[j] by {
        if j == s.len() {
            assert(s.push(p)[j] == p);
        } else {
            assert(s.push(p)[j] == s[j]);
        }
    }
    assert(lhs =~= rhs);
}

pub proof fn lemma_elem_views_update(s: Seq<Value>, i: int, v: Value)
    requires
        0 <= i < s.len(),
    ensures
        elem_views(s.update(i, v)) == elem_views(s).update(i, value_view(v)),
{
    lemma_elem_views_index(s);
    lemma_elem_views_index(s.update(i, v));
    let lhs = elem_views(s.update(i, v));
    let rhs = elem_views(s).update(i, value_view(v));
    assert forall|j: int| 0 <= j < lhs.len() implies lhs[j] == rhs[j] by {
        if j == i {
            assert(s.update(i, v)[j] == v);
        } else {
            assert(s.update(i, v)[j] == s[j]);
        }
    }
    assert(lhs =~= rhs);
}

pub proof fn lemma_elem_views_push(s: Seq<Value>, v: Value)
    ensures
        elem_views(s.push(v)) == elem_views(s).push(value_view(v)),
{
    lemma_elem_views_index(s);
    lemma_elem_views_index(s.push(v));
    let lhs = elem_views(s.push(v));
    let rhs = elem_views(s).push(value_view(v));
    assert forall|j: int| 0 <= j < lhs.len() implies lhs[j] == rhs[j] by {
        if j == s.len() {
            assert(s.push(v)[j] == v);
        } else {
            assert(s.push(v)[j] == s[j]);
        }
    }
    assert(lhs =~= rhs);
}

/// Finds the first field named `k` in an object's field vector.
pub(crate) fn obj_find(fs: &Vec<(String, Value)>, k: &String) -> (r: Option<usize>)
    ensures
        match r {
            Some(i) => {
                &&& i < fs@.len()
                &&& fs@[i as int].0@ == k@
                &&& forall|j: int| 0 <= j < i ==> (#[trigger] field_views(fs@)[j]).0 != k@
                &&& obj_get(field_views(fs@), k@) == Some(value_view(fs@[i as int].1))
            },
            None => obj_get(field_views(fs@), k@) is None,
        },
{
    proof {
        lemma_field_views_index(fs@);
    }
    let mut i: usize = 0;
    while i < fs.len()
        invariant
            i <= fs@.len(),
            field_views(fs@).len() == fs@.len(),
            forall|j: int| 0 <= j < fs@.len() ==> #[trigger] field_views(fs@)[j] == (
                fs@[j].0@,
                value_view(fs@[j].1),
            ),
            forall|j: int| 0 <= j < i ==> (#[trigger] field_views(fs@)[j]).0 != k@,
        decreases fs@.len() - i,
    {
        if fs[i].0.eq(k) {
            proof {
                lemma_obj_get_skip(field_views(fs@), k@, i as int);
                assert(field_views(fs@).skip(i as int)[0] == field_views(fs@)[i as int]);
            }
            return Some(i);
        }
        i += 1;
    }
    proof {
        lemma_obj_get_skip(field_views(fs@), k@, fs@.len() as int);
        assert(field_views(fs@).skip(fs@.len() as int) =~= Seq::<(Seq<char>, ValueView)>::empty());
    }
    None
}

/// Writes `v` under `k` in an object's field vector, replacing the first
/// field so named in place or appending a new one.
pub fn obj_set_field(fs: &mut Vec<(String, Value)>, k: String, v: Value)
    ensures
        field_views(final(fs)@) == obj_set(field_views(old(fs)@), k@, value_view(v)),
{
    let ghost fs0 = fs@;
    let ghost pair = (k, v);
    let ghost kv = k@;
    let ghost vv = value_view(v);
    proof {
        lemma_field_views_index(fs0);
    }
    match obj_find(fs, &k) {
        Some(i) => {
            fs.remove(i);
            fs.insert(i, (k, v));
            proof {
                assert(fs@ =~= fs0.update(i as int, pair));
                lemma_field_views_update(fs0, i as int, pair);
                lemma_obj_set_update(field_views(fs0), kv, vv, i as int);
            }
        },
        None => {
            fs.push((k, v));
            proof {
                assert forall|j: int| 0 <= j < field_views(fs0).len() implies (#[trigger]
                field_views(fs0)[j]).0 != kv by {
                    lemma_obj_get_no_key(field_views(fs0), kv, j);
                }
                lemma_obj_set_push(field_views(fs0), kv, vv);
                lemma_field_views_push(fs0, pair);
                assert(fs@ =~= fs0.push(pair));
            }
        },
    }
}

/// An absent key is named by no field.
pub proof fn lemma_obj_get_no_key(fs: Seq<(Seq<char>, ValueView)>, k: Seq<char>, j: int)
    requires
        obj_get(fs, k) is None,
        0 <= j < fs.len(),
    ensures
        fs[j].0 != k,
    decreases j,
{
    if j > 0 {
        assert(fs.skip(1)[j - 1] == fs[j]);
        lemma_obj_get_no_key(fs.skip(1), k, j - 1);
    }
}

/// The views of a path of decoded segments.
pub open spec fn segs_view(s: Seq<JsonIndex>) -> Seq<SegView> {
    s.map_values(|x: JsonIndex| x@)
}

/// The segments a sequence of lowercased pieces decodes to.
pub open spec fn segs_of(parts: Seq<Seq<char>>) -> Seq<SegView> {
    parts.map_values(|x: Seq<char>| seg_of(x))
}

/// Read-only traversal: the node under `path[i..upto]` from `t`, or `None`
/// at the first segment that does not resolve.
pub open spec fn resolve_at(t: ValueView, path: Seq<SegView>, i: int, upto: int) -> Option<
    ValueView,
>
    decreases upto - i,
{
    if i < 0 || i >= upto || i >= path.len() {
        Some(t)
    } else {
        match path[i] {
            SegView::Field(k) => match t {
                ValueView::Object(fs) => match obj_get(fs, k) {
                    Some(sub) => resolve_at(sub, path, i + 1, upto),
                    None => None,
                },
                _ => None,
            },
            SegView::Index(n) => match t {
                ValueView::Array(es) => if 0 <= n < es.len() {
                    resolve_at(es[n], path, i + 1, upto)
                } else {
                    None
                },
                _ => None,
            },
        }
    }
}

/// `t` with the node under `path[i..upto]` replaced by `nv`; meaningful
/// where that path resolves.
pub open spec fn replace_at(
    t: ValueView,
    path: Seq<SegView>,
    i: int,
    upto: int,
    nv: ValueView,
) -> ValueView
    decreases upto - i,
{
    if i < 0 || i >= upto || i >= path.len() {
        nv
    } else {
        match path[i] {
            SegView::Field(k) => match t {
                ValueView::Object(fs) => match obj_get(fs, k) {
                    Some(sub) => ValueView::Object(
                        obj_set(fs, k, replace_at(sub, path, i + 1, upto, nv)),
                    ),
                    None => t,
                },
                _ => t,
            },
            SegView::Index(n) => match t {
                ValueView::Array(es) => if 0 <= n < es.len() {
                    ValueView::Array(es.update(n, replace_at(es[n], path, i + 1, upto, nv)))
                } else {
                    t
                },
                _ => t,
            },
        }
    }
}

/// The array `es` with `v` written at slot `n`: grown with `Null` fillers
/// where `n` lies past the end, the slot overwritten in place where not.
pub open spec fn arr_set_pad(es: Seq<ValueView>, n: int, v: ValueView) -> Seq<ValueView> {
    if n < es.len() {
        es.update(n, v)
    } else {
        es.add(Seq::new((n - es.len()) as nat, |k: int| ValueView::Null)).push(v)
    }
}

/// A value carried upward while a path is rebuilt: either content for an
/// object slot, or an item destined for an array index.
#[derive(Debug)]
pub enum PartValue {
    Object(Value),
    ArrayItem(ArrayItem),
}

/// An array item carried with the index it is destined for.
#[derive(Debug)]
pub struct ArrayItem {
    pub index: usize,
    pub value: Value,
}

/// The mathematical shape of a carried part.
pub enum PartView {
    Object(ValueView),
    Item(int, ValueView),
}

impl View for PartValue {
    type V = PartView;

    open spec fn view(&self) -> PartView {
        match self {
            PartValue::Object(v) => PartView::Object(value_view(*v)),
            PartValue::ArrayItem(it) => PartView::Item(it.index as int, value_view(it.value)),
        }
    }
}

/// The array a lone item at `n` unfolds to: `n` fillers, then the value.
pub open spec fn array_item_value(n: int, v: ValueView) -> ValueView {
    ValueView::Array(Seq::new(n as nat, |k: int| ValueView::Null).push(v))
}

/// The tree value a carried part stands for on its own.
pub open spec fn part_value(p: PartView) -> ValueView {
    match p {
        PartView::Object(v) => v,
        PartView::Item(n, v) => array_item_value(n, v),
    }
}

/// One fabrication step: the carried part wrapped for the segment that the
/// piece one level up decodes to.
pub open spec fn wrap_part(piece: Seq<char>, p: PartView) -> PartView {
    match seg_of(piece) {
        SegView::Field(k) => PartView::Object(ValueView::Object(seq![(k, part_value(p))])),
        SegView::Index(n) => PartView::Item(n, part_value(p)),
    }
}

/// The merge at a node that already exists. Content for an object slot
/// merges its single field into an object, replaces a scalar or null
/// wholesale, and conflicts with an array; an array item lands in an array
/// at its index, padded with nulls, and conflicts with everything else.
pub open spec fn merge_into(existing: ValueView, p: PartView) -> Result<ValueView, Error> {
    match p {
        PartView::Object(v) => match existing {
            ValueView::Object(fs) => match v {
                ValueView::Object(pfs) => if pfs.len() > 0 {
                    Ok(ValueView::Object(obj_set(fs, pfs[0].0, pfs[0].1)))
                } else {
                    Err(Error::ShapeConflict)
                },
                _ => Err(Error::ShapeConflict),
            },
            ValueView::Array(_) => Err(Error::ShapeConflict),
            _ => Ok(v),
        },
        PartView::Item(n, v) => match existing {
            ValueView::Array(es) => if n < usize::MAX {
                Ok(ValueView::Array(arr_set_pad(es, n, v)))
            } else {
                Err(Error::ShapeConflict)
            },
            _ => Err(Error::ShapeConflict),
        },
    }
}

/// The loop of the merge engine, from the deepest prefix toward the root:
/// merge at the deepest prefix of the path that resolves; failing all,
/// wrap the carried part once per level and at last insert it as a new
/// field on the root object.
pub open spec fn splice_rec(t: ValueView, parts: Seq<Seq<char>>, i: int, p: PartView) -> Result<
    ValueView,
    Error,
>
    decreases i + 1,
{
    if i < 0 || i >= parts.len() {
        Err(Error::MalformedPath)
    } else {
        let path = segs_of(parts);
        match resolve_at(t, path, 0, i + 1) {
            Some(ex) => match merge_into(ex, p) {
                Ok(nv) => Ok(replace_at(t, path, 0, i + 1, nv)),
                Err(e) => Err(e),
            },
            None => if i == 0 {
                match t {
                    ValueView::Object(fs) => Ok(
                        ValueView::Object(obj_set(fs, parts[0], part_value(p))),
                    ),
                    _ => Err(Error::ShapeConflict),
                }
            } else {
                splice_rec(t, parts, i - 1, wrap_part(parts[i], p))
            },
        }
    }
}

/// What splicing one decoded path and coerced value into a tree yields.
/// A single piece that decodes to an index is refused: the root is always
/// an object, never an array. A single field piece overwrites the root
/// slot wholesale; a longer path runs the merge engine.
pub open spec fn splice_spec(t: ValueView, parts: Seq<Seq<char>>, cv: ValueView) -> Result<
    ValueView,
    Error,
> {
    if parts.len() == 0 {
        Err(Error::MalformedPath)
    } else if parts.len() == 1 {
        if seg_of(parts[0]) is Index {
            Err(Error::MalformedPath)
        } else {
            match t {
                ValueView::Object(fs) => Ok(ValueView::Object(obj_set(fs, parts[0], cv))),
                _ => Err(Error::ShapeConflict),
            }
        }
    } else {
        splice_rec(t, parts, parts.len() - 1, PartView::Object(cv))
    }
}

impl ArrayItem {
    pub fn new(index: usize, value: Value) -> (r: Self)
        ensures
            r.index == index,
            r.value == value,
    {
        ArrayItem { index, value }
    }

    /// Unfolds a lone array item into the array it stands for: fillers up
    /// to its index, then the value.
    pub fn into_array_value(self) -> (r: Value)
        ensures
            value_view(r) == array_item_value(self.index as int, value_view(self.value)),
    {
        let ArrayItem { index, value } = self;
        let mut es: Vec<Value> = Vec::new();
        let mut i: usize = 0;
        while i < index
            invariant
                i <= index,
                es@.len() == i,
                forall|j: int| 0 <= j < i ==> #[trigger] es@[j] == Value::Null,
            decreases index - i,
        {
            es.push(Value::Null);
            i += 1;
        }
        let ghost valg = value;
        let ghost before = es@;
        es.push(value);
        proof {
            lemma_elem_views_index(es@);
            let lhs = elem_views(es@);
            let rhs = Seq::new(index as nat, |k: int| ValueView::Null).push(value_view(valg));
            assert forall|j: int| 0 <= j < lhs.len() implies lhs[j] == rhs[j] by {
                if j < index {
                    assert(es@[j] == before[j]);
                    assert(es@[j] == Value::Null);
                } else {
                    assert(es@[j] == valg);
                }
            }
            assert(lhs =~= rhs);
        }
        Value::Array(es)
    }
}

impl PartValue {
    /// The tree value this carried part stands for on its own.
    pub fn into_json_value(self) -> (r: Value)
        ensures
            value_view(r) == part_value(self@),
    {
        match self {
            PartValue::Object(v) => v,
            PartValue::ArrayItem(item) => item.into_array_value(),
        }
    }
}

/// Performs `merge_into` on owned values.
fn merge_value(existing: Value, p: PartValue) -> (r: Result<Value, Error>)
    ensures
        match r {
            Ok(nv) => merge_into(value_view(existing), p@) == Ok::<ValueView, Error>(
                value_view(nv),
            ),
            Err(e) => merge_into(value_view(existing), p@) == Err::<ValueView, Error>(e),
        },
{
    match p {
        PartValue::Object(v) => match existing {
            Value::Object(mut fs) => match v {
                Value::Object(mut pfs) => {
                    if pfs.len() == 0 {
                        return Err(Error::ShapeConflict);
                    }
                    let ghost pfs0 = pfs@;
                    let pair = pfs.remove(0);
                    proof {
                        lemma_field_views_index(pfs0);
                        assert(field_views(pfs0)[0] == (pair.0@, value_view(pair.1)));
                    }
                    obj_set_field(&mut fs, pair.0, pair.1);
                    Ok(Value::Object(fs))
                },
                _ => Err(Error::ShapeConflict),
            },
            Value::Array(_) => Err(Error::ShapeConflict),
            _ => Ok(v),
        },
        PartValue::ArrayItem(item) => match existing {
            Value::Array(mut es) => {
                let ArrayItem { index, value } = item;
                if index == usize::MAX {
                    return Err(Error::ShapeConflict);
                }
                let ghost es0 = es@;
                while es.len() < index
                    invariant
                        index < usize::MAX,
                        es0.len() <= es@.len(),
                        es@.len() == es0.len() || es@.len() <= index,
                        es@ == es0.add(
                            Seq::new((es@.len() - es0.len()) as nat, |k: int| Value::Null),
                        ),
                    decreases index - es@.len(),
                {
                    es.push(Value::Null);
                    proof {
                        assert(es@ =~= es0.add(
                            Seq::new((es@.len() - es0.len()) as nat, |k: int| Value::Null),
                        ));
                    }
                }
                let ghost padded = es@;
                let ghost valg = value;
                let ghost vv = value_view(value);
                proof {
                    lemma_elem_views_index(es0);
                }
                if index < es.len() {
                    es.remove(index);
                    es.insert(index, value);
                    proof {
                        assert(padded =~= es0);
                        assert(es@ =~= es0.update(index as int, valg));
                        lemma_elem_views_update(es0, index as int, valg);
                        assert(elem_views(es@) == arr_set_pad(elem_views(es0), index as int, vv));
                    }
                } else {
                    es.push(value);
                    proof {
                        lemma_elem_views_push(padded, valg);
                        lemma_elem_views_index(padded);
                        let mid = elem_views(es0).add(
                            Seq::new((index - es0.len()) as nat, |k: int| ValueView::Null),
                        );
                        assert forall|j: int| 0 <= j < padded.len() implies elem_views(padded)[j]
                            == mid[j] by {
                            if j < es0.len() {
                                assert(padded[j] == es0[j]);
                            } else {
                                assert(padded[j] == Value::Null);
                            }
                        }
                        assert(elem_views(padded) =~= mid);
                        assert(elem_views(es@) == arr_set_pad(elem_views(es0), index as int, vv));
                    }
                }
                Ok(Value::Array(es))
            },
            _ => Err(Error::ShapeConflict),
        },
    }
}

/// Walks `segs[i..upto]` down from `node` and merges the carried part at
/// the end, where every segment resolves; hands the part back untouched
/// where one does not.
fn splice_at(node: Value, segs: &Vec<JsonIndex>, i: usize, upto: usize, p: PartValue) -> (r:
    Result<(Value, Option<PartValue>), Error>)
    requires
        i <= upto <= segs@.len(),
    ensures
        match r {
            Ok(nvrest) => {
                match resolve_at(value_view(node), segs_view(segs@), i as int, upto as int) {
                    Some(ex) => match merge_into(ex, p@) {
                        Ok(mv) => value_view(nvrest.0) == replace_at(
                            value_view(node),
                            segs_view(segs@),
                            i as int,
                            upto as int,
                            mv,
                        ) && nvrest.1 is None,
                        Err(_) => false,
                    },
                    None => value_view(nvrest.0) == value_view(node) && nvrest.1 is Some && (
                    nvrest.1->0)@ == p@,
                }
            },
            Err(e) => {
                let res = resolve_at(value_view(node), segs_view(segs@), i as int, upto as int);
                res is Some && merge_into(res->0, p@) == Err::<ValueView, Error>(e)
            },
        },
    decreases upto - i,
{
    if i == upto {
        let ghost path0 = segs_view(segs@);
        return match merge_value(node, p) {
            Ok(nv) => {
                proof {
                    assert(resolve_at(value_view(node), path0, i as int, upto as int) == Some(
                        value_view(node),
                    ));
                    assert(replace_at(value_view(node), path0, i as int, upto as int, value_view(nv))
                        == value_view(nv));
                }
                Ok((nv, None))
            },
            Err(e) => Err(e),
        };
    }
    let ghost path = segs_view(segs@);
    proof {
        assert(path[i as int] == segs@[i as int]@);
    }
    match node {
        Value::Object(mut fs) => {
            proof {
                assert(value_view(node) == ValueView::Object(field_views(fs@)));
            }
            match &segs[i] {
            JsonIndex::Field(k) => match obj_find(&fs, k) {
                Some(j) => {
                    let ghost fs0 = fs@;
                    let entry = fs.remove(j);
                    let (k0, sub) = entry;
                    let ghost k0g = k0;
                    let ghost subg = sub;
                    proof {
                        assert(value_view(node) == ValueView::Object(field_views(fs0)));
                        assert(resolve_at(value_view(node), path, i as int, upto as int)
                            == resolve_at(value_view(subg), path, i as int + 1, upto as int));
                    }
                    match splice_at(sub, segs, i + 1, upto, p) {
                        Ok((nv, rest)) => {
                            let ghost nvg = nv;
                            fs.insert(j, (k0, nv));
                            proof {
                                lemma_field_views_index(fs0);
                                assert(fs@ =~= fs0.update(j as int, (k0g, nvg)));
                                lemma_field_views_update(fs0, j as int, (k0g, nvg));
                                lemma_obj_set_update(
                                    field_views(fs0),
                                    k0g@,
                                    value_view(nvg),
                                    j as int,
                                );
                                match resolve_at(value_view(subg), path, i as int + 1, upto as int) {
                                    Some(ex) => {
                                        if merge_into(ex, p@) is Ok {
                                            let mv = match merge_into(ex, p@) {
                                                Ok(m) => m,
                                                Err(_) => ex,
                                            };
                                            assert(value_view(nvg) == replace_at(
                                                value_view(subg),
                                                path,
                                                i as int + 1,
                                                upto as int,
                                                mv,
                                            ));
                                            assert(replace_at(
                                                value_view(node),
                                                path,
                                                i as int,
                                                upto as int,
                                                mv,
                                            ) == ValueView::Object(
                                                obj_set(field_views(fs0), k0g@, value_view(nvg)),
                                            ));
                                        }
                                    },
                                    None => {},
                                }
                                if resolve_at(value_view(subg), path, i as int + 1, upto as int)
                                    is None {
                                    assert forall|jj: int|
                                        0 <= jj < field_views(fs0).len() implies field_views(
                                        fs@,
                                    )[jj] == field_views(fs0)[jj] by {
                                        lemma_field_views_index(fs@);
                                    }
                                    assert(field_views(fs@) =~= field_views(fs0));
                                }
                            }
                            proof {
                                match resolve_at(value_view(node), path, i as int, upto as int) {
                                    Some(ex) => match merge_into(ex, p@) {
                                        Ok(mv) => {
                                            assert(rest is None);
                                            assert(ValueView::Object(field_views(fs@))
                                                == replace_at(
                                                value_view(node),
                                                path,
                                                i as int,
                                                upto as int,
                                                mv,
                                            ));
                                        },
                                        Err(_) => {
                                            assert(false);
                                        },
                                    },
                                    None => {
                                        assert(rest is Some);
                                    },
                                }
                            }
                            Ok((Value::Object(fs), rest))
                        },
                        Err(e) => Err(e),
                    }
                },
                None => Ok((Value::Object(fs), Some(p))),
            },
            JsonIndex::Index(_) => Ok((Value::Object(fs), Some(p))),
        }
        },
        Value::Array(mut es) => {
            proof {
                assert(value_view(node) == ValueView::Array(elem_views(es@)));
            }
            match &segs[i] {
            JsonIndex::Index(n) => {
                if *n < es.len() {
                    let nn = *n;
                    let ghost es0 = es@;
                    let sub = es.remove(nn);
                    let ghost subg = sub;
                    proof {
                        lemma_elem_views_index(es0);
                        assert(value_view(node) == ValueView::Array(elem_views(es0)));
                        assert(elem_views(es0)[nn as int] == value_view(subg));
                        assert(resolve_at(value_view(node), path, i as int, upto as int)
                            == resolve_at(value_view(subg), path, i as int + 1, upto as int));
                    }
                    match splice_at(sub, segs, i + 1, upto, p) {
                        Ok((nv, rest)) => {
                            let ghost nvg = nv;
                            es.insert(nn, nv);
                            proof {
                                lemma_elem_views_index(es0);
                                assert(es@ =~= es0.update(nn as int, nvg));
                                lemma_elem_views_update(es0, nn as int, nvg);
                                match resolve_at(value_view(subg), path, i as int + 1, upto as int) {
                                    Some(ex) => {
                                        if merge_into(ex, p@) is Ok {
                                            let mv = match merge_into(ex, p@) {
                                                Ok(m) => m,
                                                Err(_) => ex,
                                            };
                                            assert(value_view(nvg) == replace_at(
                                                value_view(subg),
                                                path,
                                                i as int + 1,
                                                upto as int,
                                                mv,
                                            ));
                                            assert(replace_at(
                                                value_view(node),
                                                path,
                                                i as int,
                                                upto as int,
                                                mv,
                                            ) == ValueView::Array(
                                                elem_views(es0).update(nn as int, value_view(nvg)),
                                            ));
                                        }
                                    },
                                    None => {},
                                }
                                if resolve_at(value_view(subg), path, i as int + 1, upto as int)
                                    is None {
                                    assert forall|jj: int| 0 <= jj < elem_views(es0).len() implies
                                        elem_views(es@)[jj] == elem_views(es0)[jj] by {
                                        lemma_elem_views_index(es@);
                                    }
                                    assert(elem_views(es@) =~= elem_views(es0));
                                }
                            }
                            proof {
                                match resolve_at(value_view(node), path, i as int, upto as int) {
                                    Some(ex) => match merge_into(ex, p@) {
                                        Ok(mv) => {
                                            assert(rest is None);
                                            assert(ValueView::Array(elem_views(es@)) == replace_at(
                                                value_view(node),
                                                path,
                                                i as int,
                                                upto as int,
                                                mv,
                                            ));
                                        },
                                        Err(_) => {
                                            assert(false);
                                        },
                                    },
                                    None => {
                                        assert(rest is Some);
                                    },
                                }
                            }
                            Ok((Value::Array(es), rest))
                        },
                        Err(e) => Err(e),
                    }
                } else {
                    proof {
                        lemma_elem_views_index(es@);
                    }
                    Ok((Value::Array(es), Some(p)))
                }
            },
            JsonIndex::Field(_) => Ok((Value::Array(es), Some(p))),
        }
        },
        Value::Null => {
            proof {
                assert(value_view(node) == ValueView::Null);
            }
            Ok((Value::Null, Some(p)))
        },
        Value::Bool(b) => {
            proof {
                assert(value_view(node) == ValueView::Bool(b));
            }
            Ok((Value::Bool(b), Some(p)))
        },
        Value::Int(n) => {
            proof {
                assert(value_view(node) == ValueView::Int(n));
            }
            Ok((Value::Int(n), Some(p)))
        },
        Value::Float(bits) => {
            proof {
                assert(value_view(node) == ValueView::Float(bits));
            }
            Ok((Value::Float(bits), Some(p)))
        },
        Value::Text(s) => {
            let ghost sg = s;
            proof {
                assert(value_view(node) == ValueView::Text(sg@));
            }
            Ok((Value::Text(s), Some(p)))
        },
    }
}

/// The segments each lowercased piece decodes to.
fn make_segs(parts: &Vec<String>) -> (r: Vec<JsonIndex>)
    ensures
        r@.len() == parts@.len(),
        forall|j: int| 0 <= j < r@.len() ==> (#[trigger] r@[j])@ == seg_of(parts@[j]@),
{
    let mut r: Vec<JsonIndex> = Vec::new();
    let mut i: usize = 0;
    while i < parts.len()
        invariant
            i <= parts@.len(),
            r@.len() == i,
            forall|j: int| 0 <= j < i ==> (#[trigger] r@[j])@ == seg_of(parts@[j]@),
        decreases parts@.len() - i,
    {
        r.push(JsonIndex::from_piece(parts[i].as_str()));
        i += 1;
    }
    r
}

/// The views of a sequence of lowercased pieces.
pub open spec fn parts_views(parts: Seq<String>) -> Seq<Seq<char>> {
    parts.map_values(|s: String| s@)
}

/// One fabrication step on owned values.
fn wrap_part_exec(piece: &String, seg: &JsonIndex, p: PartValue) -> (r: PartValue)
    requires
        seg@ == seg_of(piece@),
    ensures
        r@ == wrap_part(piece@, p@),
{
    let ghost pv = part_value(p@);
    let v = p.into_json_value();
    match seg {
        JsonIndex::Field(_) => {
            let ghost vg = v;
            let mut fs: Vec<(String, Value)> = Vec::new();
            fs.push((piece.clone(), v));
            proof {
                assert(fs@.drop_last() =~= Seq::<(String, Value)>::empty());
                assert(field_views(fs@.drop_last()) =~= Seq::<(Seq<char>, ValueView)>::empty());
                assert(fs@.last().0@ == piece@);
                assert(field_views(fs@) =~= seq![(piece@, value_view(vg))]);
            }
            PartValue::Object(Value::Object(fs))
        },
        JsonIndex::Index(n) => PartValue::ArrayItem(ArrayItem { index: *n, value: v }),
    }
}

/// Splices one decoded path and one coerced value into the tree, merging
/// with whatever structure already exists; decides `splice_spec`.
#[verifier::loop_isolation(false)]
pub fn splice(tree: Value, parts: &Vec<String>, value: Value) -> (r: Result<Value, Error>)
    ensures
        match r {
            Ok(nv) => splice_spec(value_view(tree), parts_views(parts@), value_view(value)) == Ok::<
                ValueView,
                Error,
            >(value_view(nv)),
            Err(e) => splice_spec(value_view(tree), parts_views(parts@), value_view(value)) == Err::<
                ValueView,
                Error,
            >(e),
        },
{
    let ghost t0 = value_view(tree);
    let ghost pv = parts_views(parts@);
    let ghost cv = value_view(value);
    if parts.len() == 0 {
        return Err(Error::MalformedPath);
    }
    let segs = make_segs(parts);
    proof {
        assert(segs_view(segs@) =~= segs_of(pv));
    }
    if parts.len() == 1 {
        match &segs[0] {
            JsonIndex::Index(_) => {
                return Err(Error::MalformedPath);
            },
            JsonIndex::Field(_) => {
                match tree {
                    Value::Object(mut fs) => {
                        obj_set_field(&mut fs, parts[0].clone(), value);
                        return Ok(Value::Object(fs));
                    },
                    _ => {
                        return Err(Error::ShapeConflict);
                    },
                }
            },
        }
    }
    let np = parts.len();
    let mut i: usize = parts.len() - 1;
    let mut p = PartValue::Object(value);
    let mut t = tree;
    loop
        invariant
            np == parts@.len(),
            segs@.len() == parts@.len(),
            parts@.len() >= 2,
            pv == parts_views(parts@),
            segs_view(segs@) == segs_of(pv),
            forall|j: int| 0 <= j < segs@.len() ==> (#[trigger] segs@[j])@ == seg_of(pv[j]),
            i < parts@.len(),
            value_view(t) == t0,
            splice_spec(t0, pv, cv) == splice_rec(t0, pv, i as int, p@),
        decreases i,
    {
        let ghost pg = p@;
        let ghost tg = value_view(t);
        match splice_at(t, &segs, 0, i + 1, p) {
            Err(e) => {
                proof {
                    assert(splice_rec(t0, pv, i as int, pg) == Err::<ValueView, Error>(e));
                }
                return Err(e);
            },
            Ok((nv, rest)) => match rest {
                None => {
                    proof {
                        assert(splice_rec(t0, pv, i as int, pg) == Ok::<ValueView, Error>(
                            value_view(nv),
                        ));
                    }
                    return Ok(nv);
                },
                Some(pb) => {
                    t = nv;
                    proof {
                        assert(value_view(t) == t0);
                        assert(resolve_at(t0, segs_of(pv), 0, i + 1) is None);
                    }
                    if i == 0 {
                        let jv = pb.into_json_value();
                        let ghost jvg = value_view(jv);
                        proof {
                            assert(jvg == part_value(pg));
                        }
                        match t {
                            Value::Object(mut fs) => {
                                let ghost fs0 = fs@;
                                proof {
                                    assert(t0 == ValueView::Object(field_views(fs0)));
                                }
                                obj_set_field(&mut fs, parts[0].clone(), jv);
                                proof {
                                    assert(parts@[0]@ == pv[0]);
                                    assert(field_views(fs@) == obj_set(
                                        field_views(fs0),
                                        pv[0],
                                        jvg,
                                    ));
                                    assert(splice_rec(t0, pv, i as int, pg) == Ok::<
                                        ValueView,
                                        Error,
                                    >(ValueView::Object(field_views(fs@))));
                                }
                                return Ok(Value::Object(fs));
                            },
                            other => {
                                proof {
                                    assert(!(value_view(other) is Object));
                                    assert(splice_rec(t0, pv, i as int, pg) == Err::<
                                        ValueView,
                                        Error,
                                    >(Error::ShapeConflict));
                                }
                                return Err(Error::ShapeConflict);
                            },
                        }
                    }
                    p = wrap_part_exec(&parts[i], &segs[i], pb);
                    proof {
                        assert(parts@[i as int]@ == pv[i as int]);
                        assert(p@ == wrap_part(pv[i as int], pg));
                        assert(splice_rec(t0, pv, i as int, pg) == splice_rec(
                            t0,
                            pv,
                            i as int - 1,
                            p@,
                        ));
                    }
                    i = i - 1;
                },
            },
        }
    }
}

} // verus!
