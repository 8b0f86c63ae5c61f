//! The tree mutator: get / set / remove / has over a document tree, driven by
//! a path, with structured path-aware errors. The ghost model is given by the
//! `snav` / `sget` / `sset` / `sremove` spec functions and their path-level
//! folds.

use vstd::prelude::*;
use vstd::pervasive::VecAdditionalExecFns;
use crate::element::{clone_element, pview, Element, ElementView, PathBuf};
use crate::error::{at_path, plain, BaseError, PathError, PathErrorView};
use crate::strutil::str_eq;
use crate::value::{deep_eq, deep_fields, deep_seq, Value, ValueView};

verus! {

broadcast use crate::value::lemma_deep_seq, crate::value::lemma_deep_fields;

// ------------------------------------------------------------------
// Ghost model of single-element navigation.
// ------------------------------------------------------------------

/// First index of a member with the given key, if any.
pub open spec fn obj_find(fields: Seq<(Seq<char>, ValueView)>, key: Seq<char>) -> Option<int>
    decreases fields.len(),
{
    if fields.len() == 0 {
        None
    } else if fields[0].0 == key {
        Some(0)
    } else {
        match obj_find(fields.drop_first(), key) {
            Some(i) => Some(i + 1),
            None => None,
        }
    }
}

/// Whether an array item matches a selector: it is an object whose member
/// `key` equals `val`.
pub open spec fn sel_matches(item: ValueView, key: Seq<char>, val: ValueView) -> bool {
    match item {
        ValueView::Obj(fields) => match obj_find(fields, key) {
            Some(i) => fields[i].1 == val,
            None => false,
        },
        _ => false,
    }
}

/// How many items of the array match the selector.
pub open spec fn count_matches(items: Seq<ValueView>, key: Seq<char>, val: ValueView) -> int
    decreases items.len(),
{
    if items.len() == 0 {
        0
    } else {
        count_matches(items.drop_last(), key, val) + if sel_matches(items.last(), key, val) {
            1int
        } else {
            0int
        }
    }
}

/// First index of an item matching the selector, if any.
pub open spec fn find_match(items: Seq<ValueView>, key: Seq<char>, val: ValueView) -> Option<int>
    decreases items.len(),
{
    if items.len() == 0 {
        None
    } else if sel_matches(items[0], key, val) {
        Some(0)
    } else {
        match find_match(items.drop_first(), key, val) {
            Some(i) => Some(i + 1),
            None => None,
        }
    }
}

/// Navigation one step into `v`: the position of the addressed child, or the
/// error that the step fails with.
pub open spec fn snav(v: ValueView, e: ElementView) -> Result<int, BaseError> {
    match e {
        ElementView::Field(name) => match v {
            ValueView::Obj(fields) => match obj_find(fields, name) {
                Some(i) => Ok(i),
                None => Err(BaseError::FieldNotFound),
            },
            _ => Err(BaseError::FieldNotFound),
        },
        ElementView::Select(key, val) => match v {
            ValueView::Arr(items) => if count_matches(items, key, val) >= 2 {
                Err(BaseError::SelectMatchedMultipleItems)
            } else {
                match find_match(items, key, val) {
                    Some(i) => Ok(i),
                    None => Err(BaseError::SelectMatchedNoItems),
                }
            },
            _ => Err(BaseError::SelectTargetIsNotArray),
        },
        ElementView::Index(n) => match v {
            ValueView::Arr(items) => if 0 <= n < items.len() {
                Ok(n)
            } else {
                Err(BaseError::OutOfBounds)
            },
            _ => Err(BaseError::SelectTargetIsNotArray),
        },
    }
}

/// The child of `v` at position `j` (meaningful when `snav` returned `j`).
pub open spec fn child_at(v: ValueView, j: int) -> ValueView {
    match v {
        ValueView::Arr(items) => items[j],
        ValueView::Obj(fields) => fields[j].1,
        _ => ValueView::Null,
    }
}

/// `v` with the child at position `j` replaced by `c`.
pub open spec fn replace_child(v: ValueView, j: int, c: ValueView) -> ValueView {
    match v {
        ValueView::Arr(items) => ValueView::Arr(items.update(j, c)),
        ValueView::Obj(fields) => ValueView::Obj(fields.update(j, (fields[j].0, c))),
        _ => v,
    }
}

/// `v` with the child at position `j` removed.
pub open spec fn remove_child(v: ValueView, j: int) -> ValueView {
    match v {
        ValueView::Arr(items) => ValueView::Arr(items.remove(j)),
        ValueView::Obj(fields) => ValueView::Obj(fields.remove(j)),
        _ => v,
    }
}

/// One-step get.
pub open spec fn sget(v: ValueView, e: ElementView) -> Result<ValueView, BaseError> {
    match snav(v, e) {
        Ok(j) => Ok(child_at(v, j)),
        Err(b) => Err(b),
    }
}

/// One-step set: the new tree and the previous value, if any. Setting a
/// missing object member inserts it at the end.
pub open spec fn sset(v: ValueView, e: ElementView, x: ValueView) -> Result<
    (ValueView, Option<ValueView>),
    BaseError,
> {
    match e {
        ElementView::Field(name) => match v {
            ValueView::Obj(fields) => match obj_find(fields, name) {
                Some(i) => Ok(
                    (ValueView::Obj(fields.update(i, (fields[i].0, x))), Some(fields[i].1)),
                ),
                None => Ok((ValueView::Obj(fields.push((name, x))), None)),
            },
            _ => Err(BaseError::FieldNotFound),
        },
        _ => match snav(v, e) {
            Ok(j) => Ok((replace_child(v, j, x), Some(child_at(v, j)))),
            Err(b) => Err(b),
        },
    }
}

/// One-step remove: removing a missing object member is tolerated and yields
/// `None`, unlike `sget`, which errors.
pub open spec fn sremove(v: ValueView, e: ElementView) -> Result<
    (ValueView, Option<ValueView>),
    BaseError,
> {
    match e {
        ElementView::Field(name) => match v {
            ValueView::Obj(fields) => match obj_find(fields, name) {
                Some(i) => Ok((ValueView::Obj(fields.remove(i)), Some(fields[i].1))),
                None => Ok((ValueView::Obj(fields), None)),
            },
            _ => Err(BaseError::FieldNotFound),
        },
        _ => match snav(v, e) {
            Ok(j) => Ok((remove_child(v, j), Some(child_at(v, j)))),
            Err(b) => Err(b),
        },
    }
}

// ------------------------------------------------------------------
// Ghost model of whole-path operations.
// ------------------------------------------------------------------

/// Get along `p` from element `i` on; a failure at element `k` is wrapped
/// with the prefix `p[0..k]`.
pub open spec fn sget_path_from(cur: ValueView, p: Seq<ElementView>, i: int) -> Result<
    ValueView,
    PathErrorView,
>
    decreases p.len() - i,
{
    if i < 0 || i >= p.len() {
        Ok(cur)
    } else {
        match snav(cur, p[i]) {
            Ok(j) => sget_path_from(child_at(cur, j), p, i + 1),
            Err(b) => Err(at_path(p.take(i), plain(b))),
        }
    }
}

pub open spec fn sget_path(v: ValueView, p: Seq<ElementView>) -> Result<ValueView, PathErrorView> {
    sget_path_from(v, p, 0)
}

/// Set along `p` from element `i` on: navigate to the parent of the last
/// element, then apply the one-step set there. The final step's error is
/// wrapped with the parent path.
pub open spec fn sset_path_from(
    cur: ValueView,
    p: Seq<ElementView>,
    i: int,
    x: ValueView,
) -> Result<(ValueView, Option<ValueView>), PathErrorView>
    decreases p.len() - i,
{
    if i < 0 || i >= p.len() {
        Err(plain(BaseError::FieldNotFound))
    } else if i == p.len() - 1 {
        match sset(cur, p[i], x) {
            Ok(r) => Ok(r),
            Err(b) => Err(at_path(p.take(i), plain(b))),
        }
    } else {
        match snav(cur, p[i]) {
            Ok(j) => match sset_path_from(child_at(cur, j), p, i + 1, x) {
                Ok((c2, prev)) => Ok((replace_child(cur, j, c2), prev)),
                Err(e) => Err(e),
            },
            Err(b) => Err(at_path(p.take(i), plain(b))),
        }
    }
}

pub open spec fn sset_path(v: ValueView, p: Seq<ElementView>, x: ValueView) -> Result<
    (ValueView, Option<ValueView>),
    PathErrorView,
> {
    sset_path_from(v, p, 0, x)
}

/// Remove along `p`, with the same navigation and wrapping as `sset_path`.
pub open spec fn sremove_path_from(cur: ValueView, p: Seq<ElementView>, i: int) -> Result<
    (ValueView, Option<ValueView>),
    PathErrorView,
>
    decreases p.len() - i,
{
    if i < 0 || i >= p.len() {
        Err(plain(BaseError::FieldNotFound))
    } else if i == p.len() - 1 {
        match sremove(cur, p[i]) {
            Ok(r) => Ok(r),
            Err(b) => Err(at_path(p.take(i), plain(b))),
        }
    } else {
        match snav(cur, p[i]) {
            Ok(j) => match sremove_path_from(child_at(cur, j), p, i + 1) {
                Ok((c2, prev)) => Ok((replace_child(cur, j, c2), prev)),
                Err(e) => Err(e),
            },
            Err(b) => Err(at_path(p.take(i), plain(b))),
        }
    }
}

pub open spec fn sremove_path(v: ValueView, p: Seq<ElementView>) -> Result<
    (ValueView, Option<ValueView>),
    PathErrorView,
> {
    sremove_path_from(v, p, 0)
}

// ------------------------------------------------------------------
// Characterization lemmas.
// ------------------------------------------------------------------

/// `obj_find` returns the first index whose key matches, if any.
pub proof fn lemma_obj_find(fields: Seq<(Seq<char>, ValueView)>, key: Seq<char>)
    ensures
        match obj_find(fields, key) {
            Some(i) => 0 <= i < fields.len() && fields[i].0 == key && (forall|j: int|
                0 <= j < i ==> fields[j].0 != key),
            None => forall|j: int| 0 <= j < fields.len() ==> fields[j].0 != key,
        },
    decreases fields.len(),
{
    if fields.len() > 0 && fields[0].0 != key {
        let rest = fields.drop_first();
        lemma_obj_find(rest, key);
        assert forall|j: int| 0 <= j < fields.len() - 1 implies rest[j] == fields[j + 1] by {}
        match obj_find(rest, key) {
            Some(i) => {
                assert(rest[i] == fields[i + 1]);
                assert forall|j: int| 0 <= j < i + 1 implies fields[j].0 != key by {
                    if j > 0 {
                        assert(rest[j - 1].0 != key);
                        assert(rest[j - 1] == fields[j]);
                    }
                }
            },
            None => {
                assert forall|j: int| 0 <= j < fields.len() implies fields[j].0 != key by {
                    if j > 0 {
                        assert(rest[j - 1].0 != key);
                        assert(rest[j - 1] == fields[j]);
                    }
                }
            },
        }
    }
}

/// `find_match` returns the first matching index, if any.
pub proof fn lemma_find_match(items: Seq<ValueView>, key: Seq<char>, val: ValueView)
    ensures
        match find_match(items, key, val) {
            Some(i) => 0 <= i < items.len() && sel_matches(items[i], key, val) && (forall|j: int|
                0 <= j < i ==> !sel_matches(items[j], key, val)),
            None => forall|j: int| 0 <= j < items.len() ==> !sel_matches(items[j], key, val),
        },
    decreases items.len(),
{
    if items.len() > 0 && !sel_matches(items[0], key, val) {
        let rest = items.drop_first();
        lemma_find_match(rest, key, val);
        assert forall|j: int| 0 <= j < items.len() - 1 implies rest[j] == items[j + 1] by {}
        match find_match(rest, key, val) {
            Some(i) => {
                assert(rest[i] == items[i + 1]);
                assert forall|j: int| 0 <= j < i + 1 implies !sel_matches(items[j], key, val) by {
                    if j > 0 {
                        assert(!sel_matches(rest[j - 1], key, val));
                        assert(rest[j - 1] == items[j]);
                    }
                }
            },
            None => {
                assert forall|j: int| 0 <= j < items.len() implies !sel_matches(
                    items[j],
                    key,
                    val,
                ) by {
                    if j > 0 {
                        assert(!sel_matches(rest[j - 1], key, val));
                        assert(rest[j - 1] == items[j]);
                    }
                }
            },
        }
    }
}

/// One step of counting matches over a growing prefix.
pub proof fn lemma_count_take_step(items: Seq<ValueView>, key: Seq<char>, val: ValueView, k: int)
    requires
        0 <= k < items.len(),
    ensures
        count_matches(items.take(k + 1), key, val) == count_matches(items.take(k), key, val) + if sel_matches(
            items[k],
            key,
            val,
        ) {
            1int
        } else {
            0int
        },
{
    assert(items.take(k + 1).drop_last() =~= items.take(k));
    assert(items.take(k + 1).last() == items[k]);
}

/// Counting over the full sequence equals counting over the full prefix.
pub proof fn lemma_count_full(items: Seq<ValueView>, key: Seq<char>, val: ValueView)
    ensures
        count_matches(items.take(items.len() as int), key, val) == count_matches(items, key, val),
{
    assert(items.take(items.len() as int) =~= items);
}

} // verus!

verus! {

/// The ghost value of an optional previous tree value.
pub open spec fn opt_view(o: Option<Value>) -> Option<ValueView> {
    match o {
        Some(v) => Some(v.deep()),
        None => None,
    }
}

/// Counting matches never shrinks as the prefix grows.
proof fn lemma_count_mono(items: Seq<ValueView>, key: Seq<char>, val: ValueView, a: int, b: int)
    requires
        0 <= a <= b <= items.len(),
    ensures
        count_matches(items.take(a), key, val) <= count_matches(items.take(b), key, val),
    decreases b - a,
{
    if a < b {
        lemma_count_mono(items, key, val, a, b - 1);
        lemma_count_take_step(items, key, val, b - 1);
    }
}

/// How `find_match` over a prefix evolves by one element.
proof fn lemma_find_take_step(items: Seq<ValueView>, key: Seq<char>, val: ValueView, k: int)
    requires
        0 <= k < items.len(),
    ensures
        find_match(items.take(k + 1), key, val) == (match find_match(items.take(k), key, val) {
            Some(j) => Some(j),
            None => if sel_matches(items[k], key, val) {
                Some(k)
            } else {
                None
            },
        }),
{
    let short = items.take(k);
    let long = items.take(k + 1);
    lemma_find_match(short, key, val);
    lemma_find_match(long, key, val);
    assert(forall|j: int| 0 <= j < k ==> long[j] == items[j] && short[j] == items[j]);
    assert(long[k] == items[k]);
    match find_match(short, key, val) {
        Some(j) => {
            assert(sel_matches(long[j], key, val));
            match find_match(long, key, val) {
                Some(j2) => {
                    if j2 < j {
                        assert(!sel_matches(short[j2], key, val));
                        assert(false);
                    }
                    if j < j2 {
                        assert(!sel_matches(long[j], key, val));
                        assert(false);
                    }
                },
                None => {
                    assert(!sel_matches(long[j], key, val));
                    assert(false);
                },
            }
        },
        None => {
            match find_match(long, key, val) {
                Some(j2) => {
                    if j2 < k {
                        assert(sel_matches(short[j2], key, val));
                        assert(false);
                    }
                    assert(j2 == k);
                },
                None => {
                    if sel_matches(items[k], key, val) {
                        assert(sel_matches(long[k], key, val));
                        assert(false);
                    }
                },
            }
        },
    }
}

/// First member index with the given name, decided by scanning.
#[verifier::loop_isolation(false)]
fn find_field(fields: &Vec<(String, Value)>, name: &str) -> (r: Option<usize>)
    ensures
        match r {
            Some(j) => j < fields@.len() && obj_find(deep_fields(fields@), name@) == Some(j as int),
            None => obj_find(deep_fields(fields@), name@) is None,
        },
{
    let ghost df = deep_fields(fields@);
    let mut i: usize = 0;
    while i < fields.len()
        invariant
            0 <= i <= fields@.len(),
            forall|k: int| 0 <= k < i ==> df[k].0 != name@,
        decreases fields@.len() - i,
    {
        if str_eq(fields[i].0.as_str(), name) {
            proof {
                lemma_obj_find(df, name@);
                assert(df[i as int].0 == name@);
            }
            return Some(i);
        }
        i = i + 1;
    }
    proof {
        lemma_obj_find(df, name@);
    }
    None
}

/// Whether an array item matches a selector.
fn matches_select(item: &Value, key: &str, value: &Value) -> (r: bool)
    ensures
        r == sel_matches(item.deep(), key@, value.deep()),
{
    match item {
        Value::Obj(fields) => match find_field(fields, key) {
            Some(j) => deep_eq(&fields[j].1, value),
            None => false,
        },
        _ => false,
    }
}

/// Scans an array for the selector's unique match, with the cardinality
/// errors of the select rules.
#[verifier::loop_isolation(false)]
fn find_select(items: &Vec<Value>, key: &str, value: &Value) -> (r: Result<usize, PathError>)
    ensures
        ({
            let dv = deep_seq(items@);
            let x = value.deep();
            match r {
                Ok(j) => j < items@.len() && count_matches(dv, key@, x) == 1 && find_match(
                    dv,
                    key@,
                    x,
                ) == Some(j as int),
                Err(e) => (e.deep() == plain(BaseError::SelectMatchedNoItems) && count_matches(
                    dv,
                    key@,
                    x,
                ) == 0 && find_match(dv, key@, x) is None) || (e.deep() == plain(
                    BaseError::SelectMatchedMultipleItems,
                ) && count_matches(dv, key@, x) >= 2),
            }
        }),
{
    let ghost dv = deep_seq(items@);
    let ghost x = value.deep();
    let mut found: Option<usize> = None;
    let mut i: usize = 0;
    while i < items.len()
        invariant
            0 <= i <= items@.len(),
            found is None ==> count_matches(dv.take(i as int), key@, x) == 0 && find_match(
                dv.take(i as int),
                key@,
                x,
            ) is None,
            found matches Some(j) ==> j < i && count_matches(dv.take(i as int), key@, x) == 1
                && find_match(dv.take(i as int), key@, x) == Some(j as int),
        decreases items@.len() - i,
    {
        let m = matches_select(&items[i], key, value);
        proof {
            lemma_count_take_step(dv, key@, x, i as int);
            lemma_find_take_step(dv, key@, x, i as int);
        }
        if m {
            match found {
                Some(_) => {
                    proof {
                        lemma_count_mono(dv, key@, x, i + 1, dv.len() as int);
                        lemma_count_full(dv, key@, x);
                    }
                    return Err(PathError::SelectMatchedMultipleItems);
                },
                None => {
                    found = Some(i);
                },
            }
        }
        i = i + 1;
    }
    proof {
        lemma_count_full(dv, key@, x);
        assert(dv.take(dv.len() as int) =~= dv);
    }
    match found {
        Some(j) => Ok(j),
        None => Err(PathError::SelectMatchedNoItems),
    }
}

/// Clones the first `n` elements of a path, for error reporting.
pub(crate) fn clone_prefix(path: &[Element], n: usize) -> (r: PathBuf)
    requires
        n <= path@.len(),
    ensures
        r@ == pview(path@).take(n as int),
{
    let mut out: Vec<Element> = Vec::new();
    let mut i: usize = 0;
    while i < n
        invariant
            0 <= i <= n <= path@.len(),
            out@.len() == i,
            forall|k: int| 0 <= k < i ==> out@[k].deep() == path@[k].deep(),
        decreases n - i,
    {
        out.push(clone_element(&path[i]));
        i = i + 1;
    }
    proof {
        assert(pview(out@) =~= pview(path@).take(n as int));
    }
    PathBuf(out)
}

/// Wraps an error with the traversed prefix `path[0..n]`.
fn wrap_at(path: &[Element], n: usize, e: PathError) -> (r: PathError)
    requires
        n <= path@.len(),
    ensures
        r.deep() == at_path(pview(path@).take(n as int), e.deep()),
{
    PathError::AtPath(clone_prefix(path, n), Box::new(e))
}

/// The field name addressed by an element, if it is a field step.
fn field_name<'a>(e: &'a Element) -> (r: Option<&'a str>)
    ensures
        match r {
            Some(s) => e.deep() == ElementView::Field(s@),
            None => !(e.deep() is Field),
        },
{
    match e {
        Element::Field(n) => Some(n.as_str()),
        Element::StaticField(n) => Some(n),
        _ => None,
    }
}

} // verus!

verus! {


impl Value {
    fn get_field<'a>(&'a self, name: &str) -> (r: Result<&'a Value, PathError>)
        ensures
            ({
                let s = sget(self.deep(), ElementView::Field(name@));
                match r {
                    Ok(c) => s == Ok::<ValueView, BaseError>(c.deep()),
                    Err(e) => s is Err && e.deep() == plain(s->Err_0),
                }
            }),
    {
        match self {
            Value::Obj(fields) => match find_field(fields, name) {
                Some(j) => Ok(&fields[j].1),
                None => Err(PathError::FieldNotFound),
            },
            _ => Err(PathError::FieldNotFound),
        }
    }

    /// Navigate one step: get the child a single element addresses.
    pub fn get_comp<'a>(&'a self, comp: &Element) -> (r: Result<&'a Value, PathError>)
        ensures
            ({
                let s = sget(self.deep(), comp.deep());
                match r {
                    Ok(c) => s == Ok::<ValueView, BaseError>(c.deep()),
                    Err(e) => s is Err && e.deep() == plain(s->Err_0),
                }
            }),
    {
        match comp {
            Element::Field(name) => self.get_field(name.as_str()),
            Element::StaticField(name) => self.get_field(name),
            Element::Select(key, val) => match self {
                Value::Arr(items) => match find_select(items, key.as_str(), val) {
                    Ok(j) => Ok(&items[j]),
                    Err(e) => Err(e),
                },
                _ => Err(PathError::SelectTargetIsNotArray),
            },
            Element::Index(idx) => match self {
                Value::Arr(items) => if *idx < items.len() {
                    Ok(&items[*idx])
                } else {
                    Err(PathError::OutOfBounds)
                },
                _ => Err(PathError::SelectTargetIsNotArray),
            },
        }
    }

    /// Navigate a whole path; a failure at element `k` is wrapped with the
    /// successfully traversed prefix `path[0..k]`.
    pub fn get_path<'a>(&'a self, path: &[Element]) -> (r: Result<&'a Value, PathError>)
        ensures
            ({
                let s = sget_path(self.deep(), pview(path@));
                match r {
                    Ok(c) => s == Ok::<ValueView, PathErrorView>(c.deep()),
                    Err(e) => s == Err::<ValueView, PathErrorView>(e.deep()),
                }
            }),
    {
        let ghost pv = pview(path@);
        let mut cur: &Value = self;
        let mut i: usize = 0;
        while i < path.len()
            invariant
                0 <= i <= path@.len(),
                pv == pview(path@),
                sget_path_from(self.deep(), pv, 0) == sget_path_from(cur.deep(), pv, i as int),
            decreases path@.len() - i,
        {
            match cur.get_comp(&path[i]) {
                Ok(c) => {
                    proof {
                        assert(pv[i as int] == path@[i as int].deep());
                    }
                    cur = c;
                },
                Err(e) => {
                    proof {
                        assert(pv[i as int] == path@[i as int].deep());
                    }
                    let r = PathError::AtPath(clone_prefix(path, i), Box::new(e));
                    assert(r.deep() == at_path(pv.take(i as int), e.deep()));
                    return Err(r);
                },
            }
            i = i + 1;
        }
        Ok(cur)
    }

    /// Whether a path is addressable in this tree.
    pub fn has_path(&self, path: &[Element]) -> (r: bool)
        ensures
            r == (sget_path(self.deep(), pview(path@)) is Ok),
    {
        self.get_path(path).is_ok()
    }
}

fn set_field_owned(v: Value, name: &str, x: Value) -> (res: (
    Value,
    Result<Option<Value>, PathError>,
))
    ensures
        ({
            let s = sset(v.deep(), ElementView::Field(name@), x.deep());
            match res.1 {
                Ok(prev) => s is Ok && res.0.deep() == s->Ok_0.0 && opt_view(prev) == s->Ok_0.1,
                Err(e) => res.0.deep() == v.deep() && s is Err && e.deep() == plain(s->Err_0),
            }
        }),
{
    match v {
        Value::Obj(fields) => {
            let mut fields = fields;
            let ghost f0 = fields@;
            match find_field(&fields, name) {
                Some(j) => {
                    let mut slot = (name.to_owned(), x);
                    fields.set_and_swap(j, &mut slot);
                    let (_, prev) = slot;
                    proof {
                        lemma_obj_find(deep_fields(f0), name@);
                        assert(deep_fields(f0)[j as int].0 == name@);
                        assert(deep_fields(fields@) =~= deep_fields(f0).update(
                            j as int,
                            (deep_fields(f0)[j as int].0, x.deep()),
                        ));
                    }
                    (Value::Obj(fields), Ok(Some(prev)))
                },
                None => {
                    fields.push((name.to_owned(), x));
                    proof {
                        assert(deep_fields(fields@) =~= deep_fields(f0).push((name@, x.deep())));
                    }
                    (Value::Obj(fields), Ok(None))
                },
            }
        },
        other => (other, Err(PathError::FieldNotFound)),
    }
}

fn remove_field_owned(v: Value, name: &str) -> (res: (Value, Result<Option<Value>, PathError>))
    ensures
        ({
            let s = sremove(v.deep(), ElementView::Field(name@));
            match res.1 {
                Ok(prev) => s is Ok && res.0.deep() == s->Ok_0.0 && opt_view(prev) == s->Ok_0.1,
                Err(e) => res.0.deep() == v.deep() && s is Err && e.deep() == plain(s->Err_0),
            }
        }),
{
    match v {
        Value::Obj(fields) => {
            let mut fields = fields;
            let ghost f0 = fields@;
            match find_field(&fields, name) {
                Some(j) => {
                    let (_, prev) = fields.remove(j);
                    proof {
                        assert(deep_fields(fields@) =~= deep_fields(f0).remove(j as int));
                    }
                    (Value::Obj(fields), Ok(Some(prev)))
                },
                None => (Value::Obj(fields), Ok(None)),
            }
        },
        other => (other, Err(PathError::FieldNotFound)),
    }
}

fn set_comp_owned(v: Value, comp: &Element, x: Value) -> (res: (
    Value,
    Result<Option<Value>, PathError>,
))
    ensures
        ({
            let s = sset(v.deep(), comp.deep(), x.deep());
            match res.1 {
                Ok(prev) => s is Ok && res.0.deep() == s->Ok_0.0 && opt_view(prev) == s->Ok_0.1,
                Err(e) => res.0.deep() == v.deep() && s is Err && e.deep() == plain(s->Err_0),
            }
        }),
{
    match comp {
        Element::Field(name) => set_field_owned(v, name.as_str(), x),
        Element::StaticField(name) => set_field_owned(v, name, x),
        Element::Select(key, val) => match v {
            Value::Arr(items) => {
                let mut items = items;
                let ghost i0 = items@;
                match find_select(&items, key.as_str(), val) {
                    Ok(j) => {
                        let mut slot = x;
                        items.set_and_swap(j, &mut slot);
                        proof {
                            assert(deep_seq(items@) =~= deep_seq(i0).update(j as int, x.deep()));
                        }
                        (Value::Arr(items), Ok(Some(slot)))
                    },
                    Err(e) => (Value::Arr(items), Err(e)),
                }
            },
            other => (other, Err(PathError::SelectTargetIsNotArray)),
        },
        Element::Index(idx) => match v {
            Value::Arr(items) => {
                let mut items = items;
                let ghost i0 = items@;
                if *idx < items.len() {
                    let mut slot = x;
                    items.set_and_swap(*idx, &mut slot);
                    proof {
                        assert(deep_seq(items@) =~= deep_seq(i0).update(*idx as int, x.deep()));
                    }
                    (Value::Arr(items), Ok(Some(slot)))
                } else {
                    (Value::Arr(items), Err(PathError::OutOfBounds))
                }
            },
            other => (other, Err(PathError::SelectTargetIsNotArray)),
        },
    }
}

fn remove_comp_owned(v: Value, comp: &Element) -> (res: (Value, Result<Option<Value>, PathError>))
    ensures
        ({
            let s = sremove(v.deep(), comp.deep());
            match res.1 {
                Ok(prev) => s is Ok && res.0.deep() == s->Ok_0.0 && opt_view(prev) == s->Ok_0.1,
                Err(e) => res.0.deep() == v.deep() && s is Err && e.deep() == plain(s->Err_0),
            }
        }),
{
    match comp {
        Element::Field(name) => remove_field_owned(v, name.as_str()),
        Element::StaticField(name) => remove_field_owned(v, name),
        Element::Select(key, val) => match v {
            Value::Arr(items) => {
                let mut items = items;
                let ghost i0 = items@;
                match find_select(&items, key.as_str(), val) {
                    Ok(j) => {
                        let prev = items.remove(j);
                        proof {
                            assert(deep_seq(items@) =~= deep_seq(i0).remove(j as int));
                        }
                        (Value::Arr(items), Ok(Some(prev)))
                    },
                    Err(e) => (Value::Arr(items), Err(e)),
                }
            },
            other => (other, Err(PathError::SelectTargetIsNotArray)),
        },
        Element::Index(idx) => match v {
            Value::Arr(items) => {
                let mut items = items;
                let ghost i0 = items@;
                if *idx < items.len() {
                    let prev = items.remove(*idx);
                    proof {
                        assert(deep_seq(items@) =~= deep_seq(i0).remove(*idx as int));
                    }
                    (Value::Arr(items), Ok(Some(prev)))
                } else {
                    (Value::Arr(items), Err(PathError::OutOfBounds))
                }
            },
            other => (other, Err(PathError::SelectTargetIsNotArray)),
        },
    }
}

impl Value {
    /// Replace the value a single element addresses, returning the previous
    /// value. Setting a missing object member inserts it.
    pub fn set_comp(&mut self, comp: &Element, x: Value) -> (r: Result<Option<Value>, PathError>)
        ensures
            ({
                let s = sset(old(self).deep(), comp.deep(), x.deep());
                match r {
                    Ok(prev) => s is Ok && final(self).deep() == s->Ok_0.0 && opt_view(prev)
                        == s->Ok_0.1,
                    Err(e) => final(self).deep() == old(self).deep() && s is Err && e.deep()
                        == plain(s->Err_0),
                }
            }),
    {
        let mut cur = Value::Null;
        core::mem::swap(self, &mut cur);
        let (v2, r) = set_comp_owned(cur, comp, x);
        *self = v2;
        r
    }

    /// Remove the value a single element addresses. A missing object member
    /// is tolerated and yields `Ok(None)`.
    pub fn remove_comp(&mut self, comp: &Element) -> (r: Result<Option<Value>, PathError>)
        ensures
            ({
                let s = sremove(old(self).deep(), comp.deep());
                match r {
                    Ok(prev) => s is Ok && final(self).deep() == s->Ok_0.0 && opt_view(prev)
                        == s->Ok_0.1,
                    Err(e) => final(self).deep() == old(self).deep() && s is Err && e.deep()
                        == plain(s->Err_0),
                }
            }),
    {
        let mut cur = Value::Null;
        core::mem::swap(self, &mut cur);
        let (v2, r) = remove_comp_owned(cur, comp);
        *self = v2;
        r
    }
}

} // verus!

verus! {

#[verifier::loop_isolation(false)]
fn set_path_owned(v: Value, path: &[Element], i: usize, x: Value) -> (res: (
    Value,
    Result<Option<Value>, PathError>,
))
    requires
        i < path@.len(),
    ensures
        ({
            let s = sset_path_from(v.deep(), pview(path@), i as int, x.deep());
            match res.1 {
                Ok(prev) => s is Ok && res.0.deep() == s->Ok_0.0 && opt_view(prev) == s->Ok_0.1,
                Err(e) => res.0.deep() == v.deep() && s is Err && e.deep() == s->Err_0,
            }
        }),
    decreases path@.len() - i,
{
    broadcast use crate::value::lemma_deep_seq, crate::value::lemma_deep_fields;

    let ghost pv = pview(path@);
    proof {
        assert(pv[i as int] == path@[i as int].deep());
    }
    if i == path.len() - 1 {
        let (v2, r) = set_comp_owned(v, &path[i], x);
        match r {
            Ok(prev) => (v2, Ok(prev)),
            Err(e) => (v2, Err(wrap_at(path, i, e))),
        }
    } else {
        let comp = &path[i];
        match field_name(comp) {
            Some(name) => match v {
                Value::Obj(fields) => {
                    let mut fields = fields;
                    let ghost f0 = fields@;
                    match find_field(&fields, name) {
                        Some(j) => {
                            proof {
                                lemma_obj_find(deep_fields(f0), name@);
                            }
                            let mut slot = (String::new(), Value::Null);
                            fields.set_and_swap(j, &mut slot);
                            let (key, child) = slot;
                            let (child2, r) = set_path_owned(child, path, i + 1, x);
                            let mut slot2 = (key, child2);
                            fields.set_and_swap(j, &mut slot2);
                            proof {
                                let df = deep_fields(f0);
                                match r {
                                    Ok(_) => {
                                        assert(deep_fields(fields@) =~= df.update(
                                            j as int,
                                            (
                                                df[j as int].0,
                                                sset_path_from(
                                                    df[j as int].1,
                                                    pv,
                                                    i + 1 as int,
                                                    x.deep(),
                                                )->Ok_0.0,
                                            ),
                                        ));
                                    },
                                    Err(_) => {
                                        assert(deep_fields(fields@) =~= df);
                                    },
                                }
                            }
                            (Value::Obj(fields), r)
                        },
                        None => {
                            let e = wrap_at(path, i, PathError::FieldNotFound);
                            (Value::Obj(fields), Err(e))
                        },
                    }
                },
                other => {
                    let e = wrap_at(path, i, PathError::FieldNotFound);
                    (other, Err(e))
                },
            },
            None => match comp {
                Element::Select(key, val) => match v {
                    Value::Arr(items) => {
                        let mut items = items;
                        let ghost i0 = items@;
                        match find_select(&items, key.as_str(), val) {
                            Ok(j) => {
                                let mut slot = Value::Null;
                                items.set_and_swap(j, &mut slot);
                                let (child2, r) = set_path_owned(slot, path, i + 1, x);
                                items.set(j, child2);
                                proof {
                                    let dv = deep_seq(i0);
                                    match r {
                                        Ok(_) => {
                                            assert(deep_seq(items@) =~= dv.update(
                                                j as int,
                                                sset_path_from(
                                                    dv[j as int],
                                                    pv,
                                                    i + 1 as int,
                                                    x.deep(),
                                                )->Ok_0.0,
                                            ));
                                        },
                                        Err(_) => {
                                            assert(deep_seq(items@) =~= dv);
                                        },
                                    }
                                }
                                (Value::Arr(items), r)
                            },
                            Err(e) => {
                                let e2 = wrap_at(path, i, e);
                                (Value::Arr(items), Err(e2))
                            },
                        }
                    },
                    other => {
                        let e = wrap_at(path, i, PathError::SelectTargetIsNotArray);
                        (other, Err(e))
                    },
                },
                Element::Index(idx) => match v {
                    Value::Arr(items) => {
                        let mut items = items;
                        let ghost i0 = items@;
                        if *idx < items.len() {
                            let j = *idx;
                            let mut slot = Value::Null;
                            items.set_and_swap(j, &mut slot);
                            let (child2, r) = set_path_owned(slot, path, i + 1, x);
                            items.set(j, child2);
                            proof {
                                let dv = deep_seq(i0);
                                match r {
                                    Ok(_) => {
                                        assert(deep_seq(items@) =~= dv.update(
                                            j as int,
                                            sset_path_from(
                                                dv[j as int],
                                                pv,
                                                i + 1 as int,
                                                x.deep(),
                                            )->Ok_0.0,
                                        ));
                                    },
                                    Err(_) => {
                                        assert(deep_seq(items@) =~= dv);
                                    },
                                }
                            }
                            (Value::Arr(items), r)
                        } else {
                            let e = wrap_at(path, i, PathError::OutOfBounds);
                            (Value::Arr(items), Err(e))
                        }
                    },
                    other => {
                        let e = wrap_at(path, i, PathError::SelectTargetIsNotArray);
                        (other, Err(e))
                    },
                },
                _ => {
                    proof {
                        assert(false);
                    }
                    (v, Err(PathError::FieldNotFound))
                },
            },
        }
    }
}

} // verus!

verus! {

#[verifier::loop_isolation(false)]
fn remove_path_owned(v: Value, path: &[Element], i: usize) -> (res: (
    Value,
    Result<Option<Value>, PathError>,
))
    requires
        i < path@.len(),
    ensures
        ({
            let s = sremove_path_from(v.deep(), pview(path@), i as int);
            match res.1 {
                Ok(prev) => s is Ok && res.0.deep() == s->Ok_0.0 && opt_view(prev) == s->Ok_0.1,
                Err(e) => res.0.deep() == v.deep() && s is Err && e.deep() == s->Err_0,
            }
        }),
    decreases path@.len() - i,
{
    broadcast use crate::value::lemma_deep_seq, crate::value::lemma_deep_fields;

    let ghost pv = pview(path@);
    proof {
        assert(pv[i as int] == path@[i as int].deep());
    }
    if i == path.len() - 1 {
        let (v2, r) = remove_comp_owned(v, &path[i]);
        match r {
            Ok(prev) => (v2, Ok(prev)),
            Err(e) => (v2, Err(wrap_at(path, i, e))),
        }
    } else {
        let comp = &path[i];
        match field_name(comp) {
            Some(name) => match v {
                Value::Obj(fields) => {
                    let mut fields = fields;
                    let ghost f0 = fields@;
                    match find_field(&fields, name) {
                        Some(j) => {
                            proof {
                                lemma_obj_find(deep_fields(f0), name@);
                            }
                            let mut slot = (String::new(), Value::Null);
                            fields.set_and_swap(j, &mut slot);
                            let (key, child) = slot;
                            let (child2, r) = remove_path_owned(child, path, i + 1);
                            let mut slot2 = (key, child2);
                            fields.set_and_swap(j, &mut slot2);
                            proof {
                                let df = deep_fields(f0);
                                match r {
                                    Ok(_) => {
                                        assert(deep_fields(fields@) =~= df.update(
                                            j as int,
                                            (
                                                df[j as int].0,
                                                sremove_path_from(
                                                    df[j as int].1,
                                                    pv,
                                                    i + 1 as int,
                                                )->Ok_0.0,
                                            ),
                                        ));
                                    },
                                    Err(_) => {
                                        assert(deep_fields(fields@) =~= df);
                                    },
                                }
                            }
                            (Value::Obj(fields), r)
                        },
                        None => {
                            let e = wrap_at(path, i, PathError::FieldNotFound);
                            (Value::Obj(fields), Err(e))
                        },
                    }
                },
                other => {
                    let e = wrap_at(path, i, PathError::FieldNotFound);
                    (other, Err(e))
                },
            },
            None => match comp {
                Element::Select(key, val) => match v {
                    Value::Arr(items) => {
                        let mut items = items;
                        let ghost i0 = items@;
                        match find_select(&items, key.as_str(), val) {
                            Ok(j) => {
                                let mut slot = Value::Null;
                                items.set_and_swap(j, &mut slot);
                                let (child2, r) = remove_path_owned(slot, path, i + 1);
                                items.set(j, child2);
                                proof {
                                    let dv = deep_seq(i0);
                                    match r {
                                        Ok(_) => {
                                            assert(deep_seq(items@) =~= dv.update(
                                                j as int,
                                                sremove_path_from(
                                                    dv[j as int],
                                                    pv,
                                                    i + 1 as int,
                                                )->Ok_0.0,
                                            ));
                                        },
                                        Err(_) => {
                                            assert(deep_seq(items@) =~= dv);
                                        },
                                    }
                                }
                                (Value::Arr(items), r)
                            },
                            Err(e) => {
                                let e2 = wrap_at(path, i, e);
                                (Value::Arr(items), Err(e2))
                            },
                        }
                    },
                    other => {
                        let e = wrap_at(path, i, PathError::SelectTargetIsNotArray);
                        (other, Err(e))
                    },
                },
                Element::Index(idx) => match v {
                    Value::Arr(items) => {
                        let mut items = items;
                        let ghost i0 = items@;
                        if *idx < items.len() {
                            let j = *idx;
                            let mut slot = Value::Null;
                            items.set_and_swap(j, &mut slot);
                            let (child2, r) = remove_path_owned(slot, path, i + 1);
                            items.set(j, child2);
                            proof {
                                let dv = deep_seq(i0);
                                match r {
                                    Ok(_) => {
                                        assert(deep_seq(items@) =~= dv.update(
                                            j as int,
                                            sremove_path_from(
                                                dv[j as int],
                                                pv,
                                                i + 1 as int,
                                            )->Ok_0.0,
                                        ));
                                    },
                                    Err(_) => {
                                        assert(deep_seq(items@) =~= dv);
                                    },
                                }
                            }
                            (Value::Arr(items), r)
                        } else {
                            let e = wrap_at(path, i, PathError::OutOfBounds);
                            (Value::Arr(items), Err(e))
                        }
                    },
                    other => {
                        let e = wrap_at(path, i, PathError::SelectTargetIsNotArray);
                        (other, Err(e))
                    },
                },
                _ => {
                    proof {
                        assert(false);
                    }
                    (v, Err(PathError::FieldNotFound))
                },
            },
        }
    }
}

} // verus!

verus! {

impl Value {
    /// Replace the value at `path` (which must be non-empty), returning the
    /// previous value if any. On error the tree is unchanged.
    pub fn set_path(&mut self, path: &[Element], x: Value) -> (r: Result<
        Option<Value>,
        PathError,
    >)
        requires
            path@.len() > 0,
        ensures
            ({
                let s = sset_path(old(self).deep(), pview(path@), x.deep());
                match r {
                    Ok(prev) => s is Ok && final(self).deep() == s->Ok_0.0 && opt_view(prev)
                        == s->Ok_0.1,
                    Err(e) => final(self).deep() == old(self).deep() && s is Err && e.deep()
                        == s->Err_0,
                }
            }),
    {
        let mut cur = Value::Null;
        core::mem::swap(self, &mut cur);
        let (v2, r) = set_path_owned(cur, path, 0, x);
        *self = v2;
        r
    }

    /// Remove the value at `path` (which must be non-empty). A missing final
    /// object member is tolerated and yields `Ok(None)`.
    pub fn remove_path(&mut self, path: &[Element]) -> (r: Result<Option<Value>, PathError>)
        requires
            path@.len() > 0,
        ensures
            ({
                let s = sremove_path(old(self).deep(), pview(path@));
                match r {
                    Ok(prev) => s is Ok && final(self).deep() == s->Ok_0.0 && opt_view(prev)
                        == s->Ok_0.1,
                    Err(e) => final(self).deep() == old(self).deep() && s is Err && e.deep()
                        == s->Err_0,
                }
            }),
    {
        let mut cur = Value::Null;
        core::mem::swap(self, &mut cur);
        let (v2, r) = remove_path_owned(cur, path, 0);
        *self = v2;
        r
    }
}

} // verus!

verus! {

/// Two member sequences with the same keys in the same order are searched
/// identically.
pub(crate) proof fn lemma_obj_find_same_keys(
    f1: Seq<(Seq<char>, ValueView)>,
    f2: Seq<(Seq<char>, ValueView)>,
    key: Seq<char>,
)
    requires
        f1.len() == f2.len(),
        forall|i: int| 0 <= i < f1.len() ==> f1[i].0 == f2[i].0,
    ensures
        obj_find(f1, key) == obj_find(f2, key),
    decreases f1.len(),
{
    if f1.len() > 0 && f1[0].0 != key {
        lemma_obj_find_same_keys(f1.drop_first(), f2.drop_first(), key);
        assert(forall|i: int|
            0 <= i < f1.len() - 1 ==> f1.drop_first()[i].0 == f1[i + 1].0 && f2.drop_first()[i].0
                == f2[i + 1].0);
    }
}

/// Appending a member with a key not yet present makes lookup find it, at
/// the end.
proof fn lemma_obj_find_push(f: Seq<(Seq<char>, ValueView)>, key: Seq<char>, x: ValueView)
    requires
        obj_find(f, key) is None,
    ensures
        obj_find(f.push((key, x)), key) == Some(f.len() as int),
{
    let g = f.push((key, x));
    lemma_obj_find(f, key);
    lemma_obj_find(g, key);
    assert(forall|i: int| 0 <= i < f.len() ==> g[i] == f[i]);
    assert(g[f.len() as int].0 == key);
    match obj_find(g, key) {
        Some(i) => {
            if i < f.len() {
                assert(f[i].0 == key);
                assert(false);
            }
        },
        None => {
            assert(false);
        },
    }
}

proof fn lemma_set_get_from(d: ValueView, p: Seq<ElementView>, i: int, x: ValueView)
    requires
        0 <= i < p.len(),
        forall|k: int| i <= k < p.len() ==> !(p[k] is Select),
        sset_path_from(d, p, i, x) is Ok,
    ensures
        sget_path_from(sset_path_from(d, p, i, x)->Ok_0.0, p, i) == Ok::<
            ValueView,
            PathErrorView,
        >(x),
    decreases p.len() - i,
{
    if i == p.len() - 1 {
        match p[i] {
            ElementView::Field(name) => {
                match d {
                    ValueView::Obj(f) => {
                        match obj_find(f, name) {
                            Some(j) => {
                                lemma_obj_find(f, name);
                                let f2 = f.update(j, (f[j].0, x));
                                assert(forall|k: int| 0 <= k < f.len() ==> f2[k].0 == f[k].0);
                                lemma_obj_find_same_keys(f, f2, name);
                                assert(f2[j].1 == x);
                                assert(sset_path_from(d, p, i, x)->Ok_0.0 == ValueView::Obj(f2));
                                assert(sget_path_from(x, p, i + 1) == Ok::<
                                    ValueView,
                                    PathErrorView,
                                >(x));
                                assert(sget_path_from(ValueView::Obj(f2), p, i) == Ok::<
                                    ValueView,
                                    PathErrorView,
                                >(x));
                            },
                            None => {
                                lemma_obj_find_push(f, name, x);
                                let f2 = f.push((name, x));
                                assert(f2[f.len() as int].1 == x);
                                assert(sget_path_from(x, p, i + 1) == Ok::<
                                    ValueView,
                                    PathErrorView,
                                >(x));
                                assert(sget_path_from(ValueView::Obj(f2), p, i) == Ok::<
                                    ValueView,
                                    PathErrorView,
                                >(x));
                            },
                        }
                    },
                    _ => {
                        assert(false);
                    },
                }
            },
            ElementView::Index(n) => {
                match d {
                    ValueView::Arr(items) => {
                        assert(0 <= n < items.len());
                        assert(sget_path_from(ValueView::Arr(items.update(n, x)), p, i) == Ok::<
                            ValueView,
                            PathErrorView,
                        >(x));
                    },
                    _ => {
                        assert(false);
                    },
                }
            },
            ElementView::Select(k, v) => {
                assert(false);
            },
        }
    } else {
        match p[i] {
            ElementView::Field(name) => {
                match d {
                    ValueView::Obj(f) => {
                        match obj_find(f, name) {
                            Some(j) => {
                                lemma_obj_find(f, name);
                                let inner = sset_path_from(f[j].1, p, i + 1, x);
                                assert(inner is Ok);
                                let c2 = inner->Ok_0.0;
                                lemma_set_get_from(f[j].1, p, i + 1, x);
                                let f2 = f.update(j, (f[j].0, c2));
                                assert(forall|k: int| 0 <= k < f.len() ==> f2[k].0 == f[k].0);
                                lemma_obj_find_same_keys(f, f2, name);
                            },
                            None => {
                                assert(false);
                            },
                        }
                    },
                    _ => {
                        assert(false);
                    },
                }
            },
            ElementView::Index(n) => {
                match d {
                    ValueView::Arr(items) => {
                        assert(0 <= n < items.len());
                        let inner = sset_path_from(items[n], p, i + 1, x);
                        assert(inner is Ok);
                        lemma_set_get_from(items[n], p, i + 1, x);
                    },
                    _ => {
                        assert(false);
                    },
                }
            },
            ElementView::Select(k, v) => {
                assert(false);
            },
        }
    }
}

/// Set/get coherence: for any tree `d`, any non-empty path `p` of field and
/// index steps, and any value `x`, if setting `x` at `p` in `d` succeeds,
/// then getting `p` from the updated tree returns exactly `x`. (A path with
/// a selector step can stop addressing the item it matched once the written
/// value changes the selected key, so selector steps are excluded.)
pub proof fn lemma_set_then_get(d: ValueView, p: Seq<ElementView>, x: ValueView)
    requires
        p.len() > 0,
        forall|i: int| 0 <= i < p.len() ==> !(p[i] is Select),
        sset_path(d, p, x) is Ok,
    ensures
        sget_path(sset_path(d, p, x)->Ok_0.0, p) == Ok::<ValueView, PathErrorView>(x),
{
    lemma_set_get_from(d, p, 0, x);
}

} // verus!
