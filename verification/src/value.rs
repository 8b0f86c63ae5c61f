//! The JSON-like document model: an explicit tagged-variant tree type, its
//! ghost deep view, and verified deep equality and deep clone.

use vstd::prelude::*;

verus! {

broadcast use vstd::std_specs::vec::group_vec_axioms;

/// Ghost-level deep model of a document tree. Object members are kept as an
/// ordered sequence of (key, value) pairs; member lookup takes the first pair
/// with a matching key.
#[verifier::ext_equal]
pub enum ValueView {
    Null,
    Bool(bool),
    Num(int),
    Str(Seq<char>),
    Arr(Seq<ValueView>),
    Obj(Seq<(Seq<char>, ValueView)>),
}

/// A JSON-like document tree: object / array / string / number / bool / null.
/// Objects preserve member insertion order.
#[derive(Debug, PartialEq)]
pub enum Value {
    Null,
    Bool(bool),
    Num(i64),
    Str(String),
    Arr(Vec<Value>),
    Obj(Vec<(String, Value)>),
}

impl Value {
    pub open spec fn deep(self) -> ValueView
        decreases self,
    {
        match self {
            Value::Null => ValueView::Null,
            Value::Bool(b) => ValueView::Bool(b),
            Value::Num(n) => ValueView::Num(n as int),
            Value::Str(s) => ValueView::Str(s@),
            Value::Arr(items) => ValueView::Arr(deep_seq(items@)),
            Value::Obj(fields) => ValueView::Obj(deep_fields(fields@)),
        }
    }
}

pub open spec fn deep_seq(items: Seq<Value>) -> Seq<ValueView>
    decreases items,
{
    if items.len() == 0 {
        Seq::empty()
    } else {
        seq![items[0].deep()] + deep_seq(items.drop_first())
    }
}

pub open spec fn deep_fields(fields: Seq<(String, Value)>) -> Seq<(Seq<char>, ValueView)>
    decreases fields,
{
    if fields.len() == 0 {
        Seq::empty()
    } else {
        seq![(fields[0].0@, fields[0].1.deep())] + deep_fields(fields.drop_first())
    }
}

/// Pointwise description of `deep_seq`.
pub broadcast proof fn lemma_deep_seq(items: Seq<Value>)
    ensures
        (#[trigger] deep_seq(items)).len() == items.len(),
        forall|i: int| 0 <= i < items.len() ==> deep_seq(items)[i] == items[i].deep(),
    decreases items.len(),
{
    if items.len() > 0 {
        lemma_deep_seq(items.drop_first());
        assert forall|i: int| 0 <= i < items.len() implies deep_seq(items)[i] == items[i].deep()
        by {
            if i > 0 {
                assert(deep_seq(items)[i] == deep_seq(items.drop_first())[i - 1]);
                assert(items.drop_first()[i - 1] == items[i]);
            }
        }
    }
}

/// Pointwise description of `deep_fields`.
pub broadcast proof fn lemma_deep_fields(fields: Seq<(String, Value)>)
    ensures
        (#[trigger] deep_fields(fields)).len() == fields.len(),
        forall|i: int|
            0 <= i < fields.len() ==> deep_fields(fields)[i] == (fields[i].0@, fields[i].1.deep()),
    decreases fields.len(),
{
    if fields.len() > 0 {
        lemma_deep_fields(fields.drop_first());
        assert forall|i: int|
            0 <= i < fields.len() implies deep_fields(fields)[i] == (
            fields[i].0@,
            fields[i].1.deep(),
        ) by {
            if i > 0 {
                assert(deep_fields(fields)[i] == deep_fields(fields.drop_first())[i - 1]);
                assert(fields.drop_first()[i - 1] == fields[i]);
            }
        }
    }
}

impl View for Value {
    type V = ValueView;

    open spec fn view(&self) -> ValueView {
        self.deep()
    }
}

/// Structural equality of two document trees, decided recursively.
#[verifier::loop_isolation(false)]
pub fn deep_eq(a: &Value, b: &Value) -> (r: bool)
    ensures
        r == (a.deep() == b.deep()),
    decreases *a,
{
    broadcast use lemma_deep_seq, lemma_deep_fields;

    match (a, b) {
        (Value::Null, Value::Null) => true,
        (Value::Bool(x), Value::Bool(y)) => *x == *y,
        (Value::Num(x), Value::Num(y)) => *x == *y,
        (Value::Str(x), Value::Str(y)) => *x == *y,
        (Value::Arr(xs), Value::Arr(ys)) => {
            if xs.len() != ys.len() {
                proof {
                    lemma_deep_seq(xs@);
                    lemma_deep_seq(ys@);
                }
                assert(a.deep() != b.deep());
                false
            } else {
                let mut i: usize = 0;
                let mut same = true;
                while i < xs.len()
                    invariant
                        0 <= i <= xs@.len(),
                        xs@.len() == ys@.len(),
                        a.deep() == ValueView::Arr(deep_seq(xs@)),
                        b.deep() == ValueView::Arr(deep_seq(ys@)),
                        same ==> forall|k: int| 0 <= k < i ==> xs@[k].deep() == ys@[k].deep(),
                        !same ==> a.deep() != b.deep(),
                    decreases xs@.len() - i,
                {
                    if same {
                        proof {
                            assert(decreases_to!(*a => a->Arr_0));
                            assert(a->Arr_0 == *xs);
                            assert(decreases_to!(*xs => xs@[i as int]));
                        }
                        if !deep_eq(&xs[i], &ys[i]) {
                            proof {
                                lemma_deep_seq(xs@);
                                lemma_deep_seq(ys@);
                                assert(deep_seq(xs@)[i as int] != deep_seq(ys@)[i as int]);
                            }
                            same = false;
                        }
                    }
                    i = i + 1;
                }
                proof {
                    if same {
                        lemma_deep_seq(xs@);
                        lemma_deep_seq(ys@);
                        assert(deep_seq(xs@) =~= deep_seq(ys@));
                    }
                }
                same
            }
        },
        (Value::Obj(xs), Value::Obj(ys)) => {
            if xs.len() != ys.len() {
                proof {
                    lemma_deep_fields(xs@);
                    lemma_deep_fields(ys@);
                }
                assert(a.deep() != b.deep());
                false
            } else {
                let mut i: usize = 0;
                let mut same = true;
                while i < xs.len()
                    invariant
                        0 <= i <= xs@.len(),
                        xs@.len() == ys@.len(),
                        a.deep() == ValueView::Obj(deep_fields(xs@)),
                        b.deep() == ValueView::Obj(deep_fields(ys@)),
                        same ==> forall|k: int|
                            0 <= k < i ==> (xs@[k].0@, xs@[k].1.deep()) == (
                                ys@[k].0@,
                                ys@[k].1.deep(),
                            ),
                        !same ==> a.deep() != b.deep(),
                    decreases xs@.len() - i,
                {
                    if same {
                        proof {
                            assert(decreases_to!(*a => a->Obj_0));
                            assert(a->Obj_0 == *xs);
                            assert(decreases_to!(*xs => xs@[i as int]));
                            assert(decreases_to!(xs@[i as int] => xs@[i as int].1));
                        }
                        let keys_eq = xs[i].0 == ys[i].0;
                        if !keys_eq || !deep_eq(&xs[i].1, &ys[i].1) {
                            proof {
                                lemma_deep_fields(xs@);
                                lemma_deep_fields(ys@);
                                assert(deep_fields(xs@)[i as int] != deep_fields(ys@)[i as int]);
                            }
                            same = false;
                        }
                    }
                    i = i + 1;
                }
                proof {
                    if same {
                        lemma_deep_fields(xs@);
                        lemma_deep_fields(ys@);
                        assert(deep_fields(xs@) =~= deep_fields(ys@));
                    }
                }
                same
            }
        },
        _ => false,
    }
}

/// Structure-preserving clone of a document tree.
#[verifier::loop_isolation(false)]
pub fn clone_value(v: &Value) -> (r: Value)
    ensures
        r.deep() == v.deep(),
    decreases *v,
{
    broadcast use lemma_deep_seq, lemma_deep_fields;

    match v {
        Value::Null => Value::Null,
        Value::Bool(b) => Value::Bool(*b),
        Value::Num(n) => Value::Num(*n),
        Value::Str(s) => Value::Str(s.clone()),
        Value::Arr(items) => {
            let mut out: Vec<Value> = Vec::new();
            let mut i: usize = 0;
            while i < items.len()
                invariant
                    0 <= i <= items@.len(),
                    out@.len() == i,
                    forall|k: int| 0 <= k < i ==> out@[k].deep() == items@[k].deep(),
                decreases items@.len() - i,
            {
                proof {
                    assert(decreases_to!(*v => v->Arr_0));
                    assert(v->Arr_0 == *items);
                    assert(decreases_to!(*items => items@[i as int]));
                }
                out.push(clone_value(&items[i]));
                i = i + 1;
            }
            proof {
                lemma_deep_seq(out@);
                lemma_deep_seq(items@);
                assert(deep_seq(out@) =~= deep_seq(items@));
            }
            Value::Arr(out)
        },
        Value::Obj(fields) => {
            let mut out: Vec<(String, Value)> = Vec::new();
            let mut i: usize = 0;
            while i < fields.len()
                invariant
                    0 <= i <= fields@.len(),
                    out@.len() == i,
                    forall|k: int|
                        0 <= k < i ==> out@[k].0@ == fields@[k].0@ && out@[k].1.deep()
                            == fields@[k].1.deep(),
                decreases fields@.len() - i,
            {
                proof {
                    assert(decreases_to!(*v => v->Obj_0));
                    assert(v->Obj_0 == *fields);
                    assert(decreases_to!(*fields => fields@[i as int]));
                    assert(decreases_to!(fields@[i as int] => fields@[i as int].1));
                }
                let pair = &fields[i];
                out.push((pair.0.clone(), clone_value(&pair.1)));
                i = i + 1;
            }
            proof {
                lemma_deep_fields(out@);
                lemma_deep_fields(fields@);
                assert(deep_fields(out@) =~= deep_fields(fields@));
            }
            Value::Obj(out)
        },
    }
}

} // verus!
