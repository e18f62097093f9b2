//! The orchestrator: filters and orders the raw pairs, then feeds each one
//! through coercion and path decoding into the merge engine, against one
//! shared tree.

use vstd::prelude::*;
use crate::Error;
use crate::chars::chars_vec;
use crate::chars::sub_chars;
use crate::chars::has_prefix;
use crate::chars::lex_lt;
use crate::chars::chars_lt;
use crate::keypath::decode_parts;
use crate::keypath::parts_spec;
use crate::scalar::coerce;
use crate::scalar::coerce_spec;
use crate::splice::splice;
use crate::splice::splice_spec;
use crate::splice::parts_views;
use crate::splice::resolve_at;
use crate::splice::segs_view;
use crate::keypath::JsonIndex;
use crate::value::field_views;
use crate::value::elem_views;
use crate::value::lemma_elem_views_index;
use crate::value::Value;
use crate::value::ValueView;
use crate::value::value_view;

verus! {

#[verifier::external_type_specification]
#[verifier::external_body]
pub struct ExRegex(regex::Regex);

/// The pattern string a compiled regex was built from.
pub uninterp spec fn regex_pattern(re: regex::Regex) -> Seq<char>;

/// Whether a pattern string compiles to a regex.
pub uninterp spec fn regex_compiles(p: Seq<char>) -> bool;

/// Whether the regex compiled from a pattern matches a haystack.
pub uninterp spec fn regex_match(pattern: Seq<char>, text: Seq<char>) -> bool;

/// Relies on `regex::Regex::new`: whether a pattern compiles depends on
/// the pattern alone, and the compiled regex keeps the pattern string it
/// was built from, as `Regex::as_str` hands it back.
#[verifier::external_body]
fn regex_new(p: &str) -> (r: Option<regex::Regex>)
    ensures
        r is Some <==> regex_compiles(p@),
        r is Some ==> regex_pattern(r->0) == p@,
{
    regex::Regex::new(p).ok()
}

/// Relies on `regex::Regex::is_match`: the answer depends on the pattern
/// the regex was compiled from and the haystack alone.
#[verifier::external_body]
fn regex_is_match(re: &regex::Regex, text: &str) -> (b: bool)
    ensures
        b == regex_match(regex_pattern(*re), text@),
{
    re.is_match(text)
}

/// A key passes the filters when the allow list is empty or some allow
/// pattern matches it, and no exclude pattern matches it; exclusion wins
/// over allowance.
pub open spec fn key_valid(
    inc: Seq<regex::Regex>,
    exc: Seq<regex::Regex>,
    k: Seq<char>,
) -> bool {
    (inc.len() == 0 || exists|i: int|
        0 <= i < inc.len() && regex_match(regex_pattern(#[trigger] inc[i]), k)) && (exc.len() == 0
        || forall|i: int|
        0 <= i < exc.len() ==> !regex_match(regex_pattern(#[trigger] exc[i]), k))
}

/// Parses flat string pairs into a nested tree.
#[derive(Debug)]
pub struct Parser {
    /// Only keys that start with this literal are considered, and it is
    /// stripped before decoding.
    pub prefix: Option<String>,
    /// The separator that decodes hierarchy out of a key.
    pub separator: String,
    /// Allow-list: a key must match one of these, unless the list is
    /// empty.
    pub allow: Vec<regex::Regex>,
    /// Deny-list: a key must match none of these.
    pub exclude: Vec<regex::Regex>,
    /// The tree the parsed pairs are merged into.
    pub json: Value,
}

pub open spec fn opt_str_view(p: Option<String>) -> Option<Seq<char>> {
    match p {
        Some(s) => Some(s@),
        None => None,
    }
}

/// Whether one raw pair survives filtering: the key must start with the
/// prefix where one is configured, and must pass the allow and exclude
/// patterns either way. Both filters see the original, unstripped key.
pub open spec fn keep_pair(
    prefix: Option<Seq<char>>,
    inc: Seq<regex::Regex>,
    exc: Seq<regex::Regex>,
    key: Seq<char>,
) -> bool {
    let prefix_ok = match prefix {
        Some(pf) => pf.is_prefix_of(key),
        None => true,
    };
    prefix_ok && key_valid(inc, exc, key)
}

pub open spec fn strip_key(prefix: Option<Seq<char>>, key: Seq<char>) -> Seq<char> {
    match prefix {
        Some(pf) => key.skip(pf.len() as int),
        None => key,
    }
}

/// The surviving pairs, each key stripped of the prefix, in input order.
pub open spec fn filter_pairs(
    prefix: Option<Seq<char>>,
    inc: Seq<regex::Regex>,
    exc: Seq<regex::Regex>,
    pairs: Seq<(Seq<char>, Seq<char>)>,
) -> Seq<(Seq<char>, Seq<char>)>
    decreases pairs.len(),
{
    if pairs.len() == 0 {
        Seq::empty()
    } else {
        let rest = filter_pairs(prefix, inc, exc, pairs.drop_first());
        if keep_pair(prefix, inc, exc, pairs[0].0) {
            seq![(strip_key(prefix, pairs[0].0), pairs[0].1)].add(rest)
        } else {
            rest
        }
    }
}

/// Inserts a pair into a sequence already sorted by descending key,
/// before the first pair whose key is smaller; a pair never passes one
/// with an equal key, which keeps the order of arrival among equals.
pub open spec fn insert_desc(
    x: (Seq<char>, Seq<char>),
    s: Seq<(Seq<char>, Seq<char>)>,
) -> Seq<(Seq<char>, Seq<char>)>
    decreases s.len(),
{
    if s.len() == 0 {
        seq![x]
    } else if !chars_lt(x.0, s[0].0) {
        seq![x].add(s)
    } else {
        seq![s[0]].add(insert_desc(x, s.drop_first()))
    }
}

/// Stable sort by descending key: the longest, most specific keys come
/// first, so deeper structure is in place before its ancestors arrive.
pub open spec fn sort_desc(s: Seq<(Seq<char>, Seq<char>)>) -> Seq<(Seq<char>, Seq<char>)>
    decreases s.len(),
{
    if s.len() == 0 {
        s
    } else {
        insert_desc(s[0], sort_desc(s.drop_first()))
    }
}

/// What one surviving pair does to the tree: the value is coerced, the
/// key is decoded, and the result is spliced in.
pub open spec fn apply_pair(
    t: ValueView,
    key: Seq<char>,
    raw: Seq<char>,
    sep: Seq<char>,
) -> Result<ValueView, Error> {
    match coerce_spec(raw) {
        Ok(cv) => splice_spec(t, parts_spec(key, sep), cv),
        Err(e) => Err(e),
    }
}

/// Applies the pairs in order, stopping at the first error.
pub open spec fn apply_all(
    t: ValueView,
    pairs: Seq<(Seq<char>, Seq<char>)>,
    sep: Seq<char>,
) -> Result<ValueView, Error>
    decreases pairs.len(),
{
    if pairs.len() == 0 {
        Ok(t)
    } else {
        match apply_pair(t, pairs[0].0, pairs[0].1, sep) {
            Ok(t2) => apply_all(t2, pairs.drop_first(), sep),
            Err(e) => Err(e),
        }
    }
}

pub open spec fn pairs_views(s: Seq<(String, String)>) -> Seq<(Seq<char>, Seq<char>)> {
    s.map_values(|p: (String, String)| (p.0@, p.1@))
}

pub open spec fn raw_views(s: Seq<(Vec<char>, String)>) -> Seq<(Seq<char>, Seq<char>)> {
    s.map_values(|p: (Vec<char>, String)| (p.0@, p.1@))
}

/// What a whole parse yields: filter, stable-sort descending, then apply
/// every surviving pair to the seed tree.
pub open spec fn parse_spec(
    prefix: Option<Seq<char>>,
    sep: Seq<char>,
    inc: Seq<regex::Regex>,
    exc: Seq<regex::Regex>,
    seed: ValueView,
    pairs: Seq<(Seq<char>, Seq<char>)>,
) -> Result<ValueView, Error> {
    apply_all(seed, sort_desc(filter_pairs(prefix, inc, exc, pairs)), sep)
}

impl Default for Parser {
    /// No prefix, two underscores as the separator, no filters, and an
    /// empty object to merge into.
    fn default() -> (r: Parser)
        ensures
            r.prefix is None,
            r.separator@ == "__"@,
            r.allow@.len() == 0,
            r.exclude@.len() == 0,
            value_view(r.json) == ValueView::Object(Seq::<(Seq<char>, ValueView)>::empty()),
    {
        Parser {
            prefix: None,
            separator: "__".to_owned(),
            allow: Vec::new(),
            exclude: Vec::new(),
            json: Value::empty_object(),
        }
    }
}

impl Parser {
    /// The parser with the given key prefix.
    pub fn with_prefix(self, prefix: &str) -> (r: Self)
        ensures
            r.prefix is Some && r.prefix->0@ == prefix@,
            r.separator == self.separator,
            r.allow == self.allow,
            r.exclude == self.exclude,
            r.json == self.json,
    {
        Parser { prefix: Some(prefix.to_owned()), ..self }
    }

    /// The parser with the given separator.
    pub fn with_separator(self, separator: &str) -> (r: Self)
        ensures
            r.separator@ == separator@,
            r.prefix == self.prefix,
            r.allow == self.allow,
            r.exclude == self.exclude,
            r.json == self.json,
    {
        Parser { separator: separator.to_owned(), ..self }
    }

    /// The parser with the given tree to merge into.
    pub fn with_json(self, json: Value) -> (r: Self)
        ensures
            r.json == json,
            r.prefix == self.prefix,
            r.separator == self.separator,
            r.allow == self.allow,
            r.exclude == self.exclude,
    {
        Parser { json, ..self }
    }

    /// The parser with the given allow patterns, each compiled; `None`
    /// exactly when some pattern does not compile.
    pub fn with_allow(self, patterns: &[&str]) -> (r: Option<Self>)
        ensures
            r is Some <==> (forall|i: int|
                0 <= i < patterns@.len() ==> regex_compiles(#[trigger] patterns@[i]@)),
            r is Some ==> {
                &&& r->0.allow@.len() == patterns@.len()
                &&& forall|i: int|
                    0 <= i < patterns@.len() ==> regex_pattern(#[trigger] r->0.allow@[i])
                        == patterns@[i]@
                &&& r->0.prefix == self.prefix
                &&& r->0.separator == self.separator
                &&& r->0.exclude == self.exclude
                &&& r->0.json == self.json
            },
    {
        match compile_all(patterns) {
            Some(res) => Some(Parser { allow: res, ..self }),
            None => None,
        }
    }

    /// The parser with the given exclude patterns, each compiled; `None`
    /// exactly when some pattern does not compile.
    pub fn with_exclude(self, patterns: &[&str]) -> (r: Option<Self>)
        ensures
            r is Some <==> (forall|i: int|
                0 <= i < patterns@.len() ==> regex_compiles(#[trigger] patterns@[i]@)),
            r is Some ==> {
                &&& r->0.exclude@.len() == patterns@.len()
                &&& forall|i: int|
                    0 <= i < patterns@.len() ==> regex_pattern(#[trigger] r->0.exclude@[i])
                        == patterns@[i]@
                &&& r->0.prefix == self.prefix
                &&& r->0.separator == self.separator
                &&& r->0.allow == self.allow
                &&& r->0.json == self.json
            },
    {
        match compile_all(patterns) {
            Some(res) => Some(Parser { exclude: res, ..self }),
            None => None,
        }
    }

    /// Filters and orders the raw pairs: drops every pair whose key fails
    /// the allow and exclude patterns or, with a prefix configured, does
    /// not start with it; strips the prefix from survivors; then sorts by
    /// descending key.
    #[verifier::loop_isolation(false)]
    fn preprocess_vars(&self, vars: Vec<(String, String)>) -> (r: Vec<(Vec<char>, String)>)
        ensures
            raw_views(r@) == sort_desc(
                filter_pairs(
                    opt_str_view(self.prefix),
                    self.allow@,
                    self.exclude@,
                    pairs_views(vars@),
                ),
            ),
    {
        let ghost pre = opt_str_view(self.prefix);
        let ghost all = pairs_views(vars@);
        let pf: Option<Vec<char>> = match &self.prefix {
            Some(p) => Some(chars_vec(p.as_str())),
            None => None,
        };
        let mut acc: Vec<(Vec<char>, String)> = Vec::new();
        let mut i: usize = 0;
        proof {
            assert(all.skip(0) =~= all);
        }
        while i < vars.len()
            invariant
                i <= vars@.len(),
                filter_pairs(pre, self.allow@, self.exclude@, all) == raw_views(acc@).add(
                    filter_pairs(pre, self.allow@, self.exclude@, all.skip(i as int)),
                ),
            decreases vars@.len() - i,
        {
            let ghost acc0 = raw_views(acc@);
            let kc = chars_vec(vars[i].0.as_str());
            let keep = match &pf {
                Some(pc) => has_prefix(&kc, pc) && self.is_key_valid(vars[i].0.as_str()),
                None => self.is_key_valid(vars[i].0.as_str()),
            };
            proof {
                assert(all.skip(i as int)[0] == (vars@[i as int].0@, vars@[i as int].1@));
                assert(all.skip(i as int).drop_first() =~= all.skip(i as int + 1));
                assert(keep == keep_pair(pre, self.allow@, self.exclude@, kc@));
            }
            if keep {
                let stripped = match &pf {
                    Some(pc) => sub_chars(&kc, pc.len(), kc.len()),
                    None => kc,
                };
                proof {
                    assert(stripped@ == strip_key(pre, vars@[i as int].0@));
                }
                acc.push((stripped, vars[i].1.clone()));
                proof {
                    assert(raw_views(acc@) =~= acc0.push(
                        (strip_key(pre, vars@[i as int].0@), vars@[i as int].1@),
                    ));
                    assert(acc0.push(
                        (strip_key(pre, vars@[i as int].0@), vars@[i as int].1@),
                    ).add(filter_pairs(pre, self.allow@, self.exclude@, all.skip(i as int + 1)))
                        =~= acc0.add(
                        filter_pairs(pre, self.allow@, self.exclude@, all.skip(i as int)),
                    ));
                }
            }
            i += 1;
        }
        proof {
            assert(all.skip(vars@.len() as int) =~= Seq::<(Seq<char>, Seq<char>)>::empty());
            assert(raw_views(acc@).add(Seq::empty()) =~= raw_views(acc@));
        }
        sort_pairs(acc)
    }

    /// Parses a collection of string pairs into a tree, starting from the
    /// configured seed: filter and order the pairs, then coerce, decode
    /// and splice each one in turn, stopping at the first error.
    #[verifier::loop_isolation(false)]
    pub fn parse_iter(&self, vars: Vec<(String, String)>) -> (r: Result<Value, Error>)
        ensures
            match r {
                Ok(v) => parse_spec(
                    opt_str_view(self.prefix),
                    self.separator@,
                    self.allow@,
                    self.exclude@,
                    value_view(self.json),
                    pairs_views(vars@),
                ) == Ok::<ValueView, Error>(value_view(v)),
                Err(e) => parse_spec(
                    opt_str_view(self.prefix),
                    self.separator@,
                    self.allow@,
                    self.exclude@,
                    value_view(self.json),
                    pairs_views(vars@),
                ) == Err::<ValueView, Error>(e),
            },
    {
        let sorted = self.preprocess_vars(vars);
        let sep = chars_vec(self.separator.as_str());
        let mut tree = self.json.duplicate();
        let ghost sv = raw_views(sorted@);
        let ghost seed = value_view(self.json);
        let mut i: usize = 0;
        proof {
            assert(sv.skip(0) =~= sv);
        }
        while i < sorted.len()
            invariant
                i <= sorted@.len(),
                apply_all(seed, sv, self.separator@) == apply_all(
                    value_view(tree),
                    sv.skip(i as int),
                    self.separator@,
                ),
            decreases sorted@.len() - i,
        {
            let ghost tv = value_view(tree);
            proof {
                assert(sv.skip(i as int)[0] == (sorted@[i as int].0@, sorted@[i as int].1@));
                assert(sv.skip(i as int).drop_first() =~= sv.skip(i as int + 1));
            }
            let parts = decode_parts(&sorted[i].0, &sep);
            proof {
                assert(parts_views(parts@) =~= parts@.map_values(|p: String| p@));
            }
            match coerce(&sorted[i].1) {
                Err(e) => {
                    proof {
                        assert(apply_pair(
                            tv,
                            sv.skip(i as int)[0].0,
                            sv.skip(i as int)[0].1,
                            self.separator@,
                        ) == Err::<ValueView, Error>(e));
                    }
                    return Err(e);
                },
                Ok(cv) => {
                    let ghost cvg = value_view(cv);
                    tree = match splice(tree, &parts, cv) {
                        Ok(t2) => t2,
                        Err(e) => {
                            proof {
                                assert(apply_pair(
                                    tv,
                                    sv.skip(i as int)[0].0,
                                    sv.skip(i as int)[0].1,
                                    self.separator@,
                                ) == Err::<ValueView, Error>(e));
                            }
                            return Err(e);
                        },
                    };
                    proof {
                        assert(apply_pair(
                            tv,
                            sv.skip(i as int)[0].0,
                            sv.skip(i as int)[0].1,
                            self.separator@,
                        ) == Ok::<ValueView, Error>(value_view(tree)));
                    }
                },
            }
            i += 1;
        }
        proof {
            assert(sv.skip(sorted@.len() as int) =~= Seq::<(Seq<char>, Seq<char>)>::empty());
        }
        Ok(tree)
    }

    /// Read-only tree cursor: the node under the full decoded path, or
    /// `None` at the first segment that does not resolve, with nothing
    /// created along the way.
    pub fn json_get<'a>(json: &'a Value, indices: &Vec<JsonIndex>) -> (r: Option<&'a Value>)
        ensures
            match r {
                Some(v) => resolve_at(
                    value_view(*json),
                    segs_view(indices@),
                    0,
                    indices@.len() as int,
                ) == Some(value_view(*v)),
                None => resolve_at(
                    value_view(*json),
                    segs_view(indices@),
                    0,
                    indices@.len() as int,
                ) is None,
            },
    {
        json_get_at(json, indices, 0)
    }

    /// Whether a key passes the allow and exclude patterns; exclusion
    /// wins over allowance.
    #[verifier::loop_isolation(false)]
    pub fn is_key_valid(&self, key: &str) -> (r: bool)
        ensures
            r == key_valid(self.allow@, self.exclude@, key@),
    {
        let mut allowed = self.allow.len() == 0;
        let mut i: usize = 0;
        while i < self.allow.len()
            invariant
                i <= self.allow@.len(),
                allowed == (self.allow@.len() == 0 || exists|j: int|
                    0 <= j < i && regex_match(regex_pattern(#[trigger] self.allow@[j]), key@)),
            decreases self.allow@.len() - i,
        {
            if regex_is_match(&self.allow[i], key) {
                allowed = true;
            }
            i += 1;
        }
        if !allowed {
            return false;
        }
        let mut i: usize = 0;
        while i < self.exclude.len()
            invariant
                i <= self.exclude@.len(),
                forall|j: int|
                    0 <= j < i ==> !regex_match(regex_pattern(#[trigger] self.exclude@[j]), key@),
            decreases self.exclude@.len() - i,
        {
            if regex_is_match(&self.exclude[i], key) {
                return false;
            }
            i += 1;
        }
        true
    }
}

/// Inserts a pair into a vector sorted by descending key; decides
/// `insert_desc`.
fn insert_pair(x: (Vec<char>, String), v: Vec<(Vec<char>, String)>) -> (r: Vec<
    (Vec<char>, String),
>)
    ensures
        raw_views(r@) == insert_desc((x.0@, x.1@), raw_views(v@)),
    decreases v@.len(),
{
    let ghost xv = (x.0@, x.1@);
    let ghost vv = raw_views(v@);
    let mut v = v;
    if v.len() == 0 {
        v.push(x);
        proof {
            assert(raw_views(v@) =~= seq![xv]);
        }
        return v;
    }
    if !lex_lt(&x.0, &v[0].0) {
        v.insert(0, x);
        proof {
            assert(raw_views(v@) =~= seq![xv].add(vv));
        }
        return v;
    }
    let h = v.remove(0);
    let ghost hg = h;
    proof {
        assert(raw_views(v@) =~= vv.drop_first());
    }
    let mut r = insert_pair(x, v);
    r.insert(0, h);
    proof {
        assert(raw_views(r@) =~= seq![(hg.0@, hg.1@)].add(insert_desc(xv, vv.drop_first())));
        assert((hg.0@, hg.1@) == vv[0]);
    }
    r
}

/// Stable sort by descending key; decides `sort_desc`.
fn sort_pairs(v: Vec<(Vec<char>, String)>) -> (r: Vec<(Vec<char>, String)>)
    ensures
        raw_views(r@) == sort_desc(raw_views(v@)),
    decreases v@.len(),
{
    let ghost vv = raw_views(v@);
    let mut v = v;
    if v.len() == 0 {
        return v;
    }
    let h = v.remove(0);
    let ghost hg = h;
    proof {
        assert(raw_views(v@) =~= vv.drop_first());
        assert((hg.0@, hg.1@) == vv[0]);
    }
    let s = sort_pairs(v);
    insert_pair(h, s)
}

/// Walks `segs[i..]` down from `node`, a shared borrow at a time.
fn json_get_at<'a>(node: &'a Value, segs: &Vec<JsonIndex>, i: usize) -> (r: Option<&'a Value>)
    requires
        i <= segs@.len(),
    ensures
        match r {
            Some(v) => resolve_at(value_view(*node), segs_view(segs@), i as int, segs@.len() as int)
                == Some(value_view(*v)),
            None => resolve_at(
                value_view(*node),
                segs_view(segs@),
                i as int,
                segs@.len() as int,
            ) is None,
        },
    decreases segs@.len() - i,
{
    let ghost path = segs_view(segs@);
    if i == segs.len() {
        return Some(node);
    }
    proof {
        assert(path[i as int] == segs@[i as int]@);
    }
    match node {
        Value::Object(fs) => {
            proof {
                assert(value_view(*node) == ValueView::Object(field_views(fs@)));
            }
            match &segs[i] {
                JsonIndex::Field(k) => match crate::splice::obj_find(fs, k) {
                    Some(j) => json_get_at(&fs[j].1, segs, i + 1),
                    None => None,
                },
                JsonIndex::Index(_) => None,
            }
        },
        Value::Array(es) => {
            proof {
                lemma_elem_views_index(es@);
                assert(value_view(*node) == ValueView::Array(elem_views(es@)));
            }
            match &segs[i] {
                JsonIndex::Index(n) => {
                    if *n < es.len() {
                        json_get_at(&es[*n], segs, i + 1)
                    } else {
                        None
                    }
                },
                JsonIndex::Field(_) => None,
            }
        },
        other => {
            proof {
                assert(!(value_view(*other) is Object) && !(value_view(*other) is Array));
            }
            None
        },
    }
}

/// Compiles every pattern, or reports the first that does not compile.
fn compile_all(patterns: &[&str]) -> (r: Option<Vec<regex::Regex>>)
    ensures
        r is Some <==> (forall|i: int|
            0 <= i < patterns@.len() ==> regex_compiles(#[trigger] patterns@[i]@)),
        r is Some ==> r->0@.len() == patterns@.len() && (forall|i: int|
            0 <= i < patterns@.len() ==> regex_pattern(#[trigger] r->0@[i]) == patterns@[i]@),
{
    let mut res: Vec<regex::Regex> = Vec::new();
    let mut i: usize = 0;
    while i < patterns.len()
        invariant
            i <= patterns@.len(),
            res@.len() == i,
            forall|j: int| 0 <= j < i ==> regex_compiles(#[trigger] patterns@[j]@),
            forall|j: int| 0 <= j < i ==> regex_pattern(#[trigger] res@[j]) == patterns@[j]@,
        decreases patterns@.len() - i,
    {
        match regex_new(patterns[i]) {
            Some(re) => {
                res.push(re);
            },
            None => {
                return None;
            },
        }
        i += 1;
    }
    Some(res)
}

} // verus!
