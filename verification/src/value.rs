//! The tree value model: a JSON-shaped tagged union, and its mathematical
//! shadow that contracts are stated over.

use vstd::prelude::*;

verus! {

/// A node of the result tree.
///
/// Numbers keep integer and floating-point representations apart, as the
/// coercion rules demand. A floating-point number is carried by its IEEE 754
/// bit pattern, so the tree stays within what the verifier models; the bits
/// are produced when a value string is coerced and consumed at the crate's
/// edge.
#[derive(Debug)]
pub enum Value {
    Null,
    Bool(bool),
    Int(i64),
    /// IEEE 754 double bits of a finite floating-point number.
    Float(u64),
    Text(String),
    /// Dense sequence of values; `Null` fills slots addressed past the end.
    Array(Vec<Value>),
    /// Field map in insertion order; splicing keeps keys unique.
    Object(Vec<(String, Value)>),
}

/// The mathematical shape of a `Value`: what the contracts speak about.
#[verifier::ext_equal]
pub enum ValueView {
    Null,
    Bool(bool),
    Int(i64),
    Float(u64),
    Text(Seq<char>),
    Array(Seq<ValueView>),
    Object(Seq<(Seq<char>, ValueView)>),
}

pub open spec fn value_view(v: Value) -> ValueView
    decreases v,
{
    match v {
        Value::Null => ValueView::Null,
        Value::Bool(b) => ValueView::Bool(b),
        Value::Int(n) => ValueView::Int(n),
        Value::Float(bits) => ValueView::Float(bits),
        Value::Text(s) => ValueView::Text(s@),
        Value::Array(vs) => ValueView::Array(elem_views(vs@)),
        Value::Object(fs) => ValueView::Object(field_views(fs@)),
    }
}

pub open spec fn elem_views(s: Seq<Value>) -> Seq<ValueView>
    decreases s,
{
    if s.len() == 0 {
        Seq::empty()
    } else {
        elem_views(s.drop_last()).push(value_view(s.last()))
    }
}

pub open spec fn field_views(s: Seq<(String, Value)>) -> Seq<(Seq<char>, ValueView)>
    decreases s,
{
    if s.len() == 0 {
        Seq::empty()
    } else {
        field_views(s.drop_last()).push((s.last().0@, value_view(s.last().1)))
    }
}

impl View for Value {
    type V = ValueView;

    open spec fn view(&self) -> ValueView {
        value_view(*self)
    }
}

pub broadcast proof fn lemma_elem_views_index(s: Seq<Value>)
    ensures
        (#[trigger] elem_views(s)).len() == s.len(),
        forall|i: int| 0 <= i < s.len() ==> elem_views(s)[i] == value_view(#[trigger] s[i]),
    decreases s.len(),
{
    if s.len() > 0 {
        lemma_elem_views_index(s.drop_last());
        assert forall|i: int| 0 <= i < s.len() implies elem_views(s)[i] == value_view(s[i]) by {
            if i < s.len() - 1 {
                assert(s.drop_last()[i] == s[i]);
            } else {
                assert(s[i] == s.last());
            }
        }
    }
}

pub broadcast proof fn lemma_field_views_index(s: Seq<(String, Value)>)
    ensures
        (#[trigger] field_views(s)).len() == s.len(),
        forall|i: int| 0 <= i < s.len()
            ==> field_views(s)[i] == ((#[trigger] s[i]).0@, value_view(s[i].1)),
    decreases s.len(),
{
    if s.len() > 0 {
        lemma_field_views_index(s.drop_last());
        assert forall|i: int| 0 <= i < s.len() implies field_views(s)[i] == (s[i].0@, value_view(
            s[i].1,
        )) by {
            if i < s.len() - 1 {
                assert(s.drop_last()[i] == s[i]);
            } else {
                assert(s[i] == s.last());
            }
        }
    }
}

impl Value {
    /// An empty object: the tree every parse starts from when no seed is
    /// given.
    pub fn empty_object() -> (r: Value)
        ensures
            r@ == ValueView::Object(Seq::<(Seq<char>, ValueView)>::empty()),
    {
        Value::Object(Vec::new())
    }

    /// A structurally equal copy of the tree.
    #[verifier::loop_isolation(false)]
    pub fn duplicate(&self) -> (r: Value)
        ensures
            value_view(r) == value_view(*self),
        decreases *self,
    {
        match self {
            Value::Null => Value::Null,
            Value::Bool(b) => Value::Bool(*b),
            Value::Int(n) => Value::Int(*n),
            Value::Float(bits) => Value::Float(*bits),
            Value::Text(s) => Value::Text(s.clone()),
            Value::Array(es) => {
                let mut r: Vec<Value> = Vec::new();
                let mut i: usize = 0;
                while i < es.len()
                    invariant
                        i <= es@.len(),
                        r@.len() == i,
                        value_view(*self) == ValueView::Array(elem_views(es@)),
                        forall|j: int| 0 <= j < i ==> value_view(#[trigger] r@[j]) == value_view(
                            es@[j],
                        ),
                    decreases es@.len() - i,
                {
                    proof {
                        assert(decreases_to!(*self => es@[i as int]));
                    }
                    let d = es[i].duplicate();
                    r.push(d);
                    i += 1;
                }
                proof {
                    lemma_elem_views_index(r@);
                    lemma_elem_views_index(es@);
                    assert forall|j: int| 0 <= j < r@.len() implies elem_views(r@)[j] == elem_views(
                        es@,
                    )[j] by {
                        assert(value_view(r@[j]) == value_view(es@[j]));
                    }
                    assert(elem_views(r@) =~= elem_views(es@));
                }
                Value::Array(r)
            },
            Value::Object(fs) => {
                let mut r: Vec<(String, Value)> = Vec::new();
                let mut i: usize = 0;
                while i < fs.len()
                    invariant
                        i <= fs@.len(),
                        r@.len() == i,
                        value_view(*self) == ValueView::Object(field_views(fs@)),
                        forall|j: int| 0 <= j < i ==> (#[trigger] r@[j]).0@ == fs@[j].0@
                            && value_view(r@[j].1) == value_view(fs@[j].1),
                    decreases fs@.len() - i,
                {
                    proof {
                        assert(decreases_to!(*self => fs@[i as int].1));
                    }
                    let entry = &fs[i];
                    let d = entry.1.duplicate();
                    r.push((entry.0.clone(), d));
                    i += 1;
                }
                proof {
                    lemma_field_views_index(r@);
                    lemma_field_views_index(fs@);
                    assert forall|j: int| 0 <= j < r@.len() implies field_views(r@)[j]
                        == field_views(fs@)[j] by {
                        assert(r@[j].0@ == fs@[j].0@ && value_view(r@[j].1) == value_view(
                            fs@[j].1,
                        ));
                    }
                    assert(field_views(r@) =~= field_views(fs@));
                }
                Value::Object(r)
            },
        }
    }
}

/// Decides whether two trees have the same mathematical shape.
#[verifier::loop_isolation(false)]
pub fn value_eq(a: &Value, b: &Value) -> (r: bool)
    ensures
        r == (value_view(*a) == value_view(*b)),
    decreases *a,
{
    match (a, b) {
        (Value::Null, Value::Null) => true,
        (Value::Bool(x), Value::Bool(y)) => x == y,
        (Value::Int(x), Value::Int(y)) => x == y,
        (Value::Float(x), Value::Float(y)) => x == y,
        (Value::Text(x), Value::Text(y)) => x.eq(y),
        (Value::Array(xs), Value::Array(ys)) => {
            proof {
                lemma_elem_views_index(xs@);
                lemma_elem_views_index(ys@);
            }
            if xs.len() != ys.len() {
                return false;
            }
            let mut i: usize = 0;
            while i < xs.len()
                invariant
                    i <= xs@.len(),
                    xs@.len() == ys@.len(),
                    forall|j: int|
                        0 <= j < i ==> value_view(#[trigger] xs@[j]) == value_view(ys@[j]),
                decreases xs@.len() - i,
            {
                proof {
                    assert(decreases_to!(*a => xs@[i as int]));
                }
                if !value_eq(&xs[i], &ys[i]) {
                    return false;
                }
                i += 1;
            }
            proof {
                assert forall|j: int| 0 <= j < xs@.len() implies elem_views(xs@)[j] == elem_views(
                    ys@,
                )[j] by {
                    assert(value_view(xs@[j]) == value_view(ys@[j]));
                }
                assert(elem_views(xs@) =~= elem_views(ys@));
            }
            true
        },
        (Value::Object(xs), Value::Object(ys)) => {
            proof {
                lemma_field_views_index(xs@);
                lemma_field_views_index(ys@);
            }
            if xs.len() != ys.len() {
                return false;
            }
            let mut i: usize = 0;
            while i < xs.len()
                invariant
                    i <= xs@.len(),
                    xs@.len() == ys@.len(),
                    forall|j: int|
                        0 <= j < i ==> (#[trigger] xs@[j]).0@ == ys@[j].0@ && value_view(xs@[j].1)
                            == value_view(ys@[j].1),
                decreases xs@.len() - i,
            {
                proof {
                    assert(decreases_to!(*a => xs@[i as int].1));
                }
                if !xs[i].0.eq(&ys[i].0) {
                    return false;
                }
                if !value_eq(&xs[i].1, &ys[i].1) {
                    return false;
                }
                i += 1;
            }
            proof {
                assert forall|j: int| 0 <= j < xs@.len() implies field_views(xs@)[j] == field_views(
                    ys@,
                )[j] by {
                    assert(xs@[j].0@ == ys@[j].0@ && value_view(xs@[j].1) == value_view(ys@[j].1));
                }
                assert(field_views(xs@) =~= field_views(ys@));
            }
            true
        },
        _ => false,
    }
}

} // verus!
