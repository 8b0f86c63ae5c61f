//! Path elements: one step of addressing into a document tree, and paths as
//! element sequences, together with their textual rendering.

use vstd::prelude::*;
use vstd::string::StringExecFns;
use crate::strutil::{int_text, push_i64, push_u64, str_eq, str_to_chars};
use crate::value::{clone_value, deep_eq, Value, ValueView};

verus! {

/// Ghost-level model of a path element. A statically-known field name and a
/// runtime-built one address the same way, so both map to `Field`.
pub enum ElementView {
    Field(Seq<char>),
    Select(Seq<char>, ValueView),
    Index(int),
}

/// One step of addressing into a document tree: an object member by name, an
/// array item by key/value equality, or an array position.
#[derive(Debug, PartialEq)]
pub enum Element {
    Field(String),
    StaticField(&'static str),
    Select(String, Value),
    Index(usize),
}

impl Element {
    pub open spec fn deep(self) -> ElementView {
        match self {
            Element::Field(s) => ElementView::Field(s@),
            Element::StaticField(s) => ElementView::Field(s@),
            Element::Select(k, v) => ElementView::Select(k@, v.deep()),
            Element::Index(i) => ElementView::Index(i as int),
        }
    }
}

impl View for Element {
    type V = ElementView;

    open spec fn view(&self) -> ElementView {
        self.deep()
    }
}

/// The model of a path: its elements' views, in order.
pub open spec fn pview(s: Seq<Element>) -> Seq<ElementView> {
    s.map_values(|e: Element| e.deep())
}

/// An owned path: a sequence of elements, applied root-first.
#[derive(Debug, PartialEq)]
pub struct PathBuf(pub Vec<Element>);

impl View for PathBuf {
    type V = Seq<ElementView>;

    open spec fn view(&self) -> Seq<ElementView> {
        pview(self.0@)
    }
}

/// Equality of two elements, up to the static/runtime field distinction.
pub fn element_eq(a: &Element, b: &Element) -> (r: bool)
    ensures
        r == (a.deep() == b.deep()),
{
    match (a, b) {
        (Element::Field(x), Element::Field(y)) => *x == *y,
        (Element::Field(x), Element::StaticField(y)) => str_eq(x.as_str(), y),
        (Element::StaticField(x), Element::Field(y)) => str_eq(x, y.as_str()),
        (Element::StaticField(x), Element::StaticField(y)) => str_eq(x, y),
        (Element::Select(k1, v1), Element::Select(k2, v2)) => *k1 == *k2 && deep_eq(v1, v2),
        (Element::Index(i), Element::Index(j)) => *i == *j,
        _ => false,
    }
}

/// Structure-preserving clone of an element.
pub fn clone_element(e: &Element) -> (r: Element)
    ensures
        r.deep() == e.deep(),
{
    match e {
        Element::Field(s) => Element::Field(s.clone()),
        Element::StaticField(s) => Element::StaticField(s),
        Element::Select(k, v) => Element::Select(k.clone(), clone_value(v)),
        Element::Index(i) => Element::Index(*i),
    }
}

impl PathBuf {
    /// Structure-preserving clone of a whole path.
    pub fn clone_path(&self) -> (r: PathBuf)
        ensures
            r@ == self@,
    {
        let mut out: Vec<Element> = Vec::new();
        let mut i: usize = 0;
        while i < self.0.len()
            invariant
                0 <= i <= self.0@.len(),
                out@.len() == i,
                forall|k: int| 0 <= k < i ==> out@[k].deep() == self.0@[k].deep(),
            decreases self.0@.len() - i,
        {
            out.push(clone_element(&self.0[i]));
            i = i + 1;
        }
        proof {
            assert(pview(out@) =~= pview(self.0@));
        }
        PathBuf(out)
    }

    pub fn as_slice(&self) -> (r: &[Element])
        ensures
            r@ == self.0@,
    {
        self.0.as_slice()
    }
}

// ------------------------------------------------------------------
// Textual rendering.
// ------------------------------------------------------------------

/// A field name is quoted when rendered iff it contains a quote or a dot.
pub open spec fn needs_quote(name: Seq<char>) -> bool {
    name.contains('"') || name.contains('.')
}

/// Escaping used inside quoted field names: `"` becomes `\"`.
pub open spec fn escape_quotes(name: Seq<char>) -> Seq<char>
    decreases name.len(),
{
    if name.len() == 0 {
        Seq::empty()
    } else {
        escape_quotes(name.drop_last()) + (if name.last() == '"' {
            seq!['\\', '"']
        } else {
            seq![name.last()]
        })
    }
}

/// Text of a field element: `.name`, quoted when needed.
pub open spec fn field_text(name: Seq<char>) -> Seq<char> {
    if needs_quote(name) {
        seq!['.', '"'] + escape_quotes(name) + seq!['"']
    } else {
        seq!['.'] + name
    }
}

/// Escaping used inside rendered string scalars: `"` becomes `\"` and `\`
/// becomes `\\`.
pub open spec fn escape_scalar(s: Seq<char>) -> Seq<char>
    decreases s.len(),
{
    if s.len() == 0 {
        Seq::empty()
    } else {
        escape_scalar(s.drop_last()) + (if s.last() == '"' {
            seq!['\\', '"']
        } else if s.last() == '\\' {
            seq!['\\', '\\']
        } else {
            seq![s.last()]
        })
    }
}

/// Compact rendering of a scalar or tree value, in JSON-like syntax.
pub open spec fn value_text(v: ValueView) -> Seq<char>
    decreases v,
{
    match v {
        ValueView::Null => seq!['n', 'u', 'l', 'l'],
        ValueView::Bool(b) => if b {
            seq!['t', 'r', 'u', 'e']
        } else {
            seq!['f', 'a', 'l', 's', 'e']
        },
        ValueView::Num(n) => int_text(n),
        ValueView::Str(s) => seq!['"'] + escape_scalar(s) + seq!['"'],
        ValueView::Arr(items) => seq!['['] + arr_text(items) + seq![']'],
        ValueView::Obj(fields) => seq!['{'] + obj_text(fields) + seq!['}'],
    }
}

pub open spec fn arr_text(items: Seq<ValueView>) -> Seq<char>
    decreases items,
{
    if items.len() == 0 {
        Seq::empty()
    } else if items.len() == 1 {
        value_text(items[0])
    } else {
        arr_text(items.drop_last()) + seq![','] + value_text(items.last())
    }
}

pub open spec fn obj_text(fields: Seq<(Seq<char>, ValueView)>) -> Seq<char>
    decreases fields,
{
    if fields.len() == 0 {
        Seq::empty()
    } else if fields.len() == 1 {
        pair_text(fields[0])
    } else {
        obj_text(fields.drop_last()) + seq![','] + pair_text(fields.last())
    }
}

pub open spec fn pair_text(field: (Seq<char>, ValueView)) -> Seq<char>
    decreases field,
{
    seq!['"'] + escape_scalar(field.0) + seq!['"', ':'] + value_text(field.1)
}

/// Text of one element. An `Index` renders as bare digits, without the
/// brackets the parser would need: a deliberate asymmetry kept as-is.
pub open spec fn elem_text(e: ElementView) -> Seq<char> {
    match e {
        ElementView::Field(name) => field_text(name),
        ElementView::Select(key, v) => seq!['['] + key + seq!['='] + value_text(v) + seq![']'],
        ElementView::Index(n) => int_text(n),
    }
}

/// Text of a whole path: its elements' texts, concatenated.
pub open spec fn path_text(p: Seq<ElementView>) -> Seq<char>
    decreases p.len(),
{
    if p.len() == 0 {
        Seq::empty()
    } else {
        path_text(p.drop_last()) + elem_text(p.last())
    }
}

/// Appends `.name`, quoting the name when it contains a quote or a dot.
#[verifier::loop_isolation(false)]
pub fn write_field(out: &mut String, name: &str)
    ensures
        final(out)@ == old(out)@ + field_text(name@),
{
    let chars = str_to_chars(name);
    let mut quote = false;
    let mut i: usize = 0;
    while i < chars.len()
        invariant
            0 <= i <= chars@.len(),
            quote == (exists|k: int|
                0 <= k < i && (#[trigger] chars@[k] == '"' || chars@[k] == '.')),
        decreases chars@.len() - i,
    {
        let c = chars[i];
        if c == '"' || c == '.' {
            proof {
                assert(chars@[i as int] == '"' || chars@[i as int] == '.');
            }
            quote = true;
        }
        i = i + 1;
    }
    proof {
        if quote {
            let k = choose|k: int|
                0 <= k < chars@.len() && (#[trigger] chars@[k] == '"' || chars@[k] == '.');
            if chars@[k] == '"' {
                assert(chars@.contains('"'));
            } else {
                assert(chars@.contains('.'));
            }
        } else {
            if chars@.contains('"') {
                let k = choose|k: int| 0 <= k < chars@.len() && chars@[k] == '"';
                assert(false);
            }
            if chars@.contains('.') {
                let k = choose|k: int| 0 <= k < chars@.len() && chars@[k] == '.';
                assert(false);
            }
        }
        assert(quote == needs_quote(name@));
    }
    if !quote {
        out.push('.');
        out.append(name);
        proof {
            assert(final(out)@ =~= old(out)@ + field_text(name@));
        }
    } else {
        out.push('.');
        out.push('"');
        let ghost base = out@;
        let mut j: usize = 0;
        while j < chars.len()
            invariant
                0 <= j <= chars@.len(),
                out@ == base + escape_quotes(chars@.take(j as int)),
            decreases chars@.len() - j,
        {
            let c = chars[j];
            if c == '"' {
                out.push('\\');
                out.push('"');
            } else {
                out.push(c);
            }
            proof {
                assert(chars@.take(j + 1 as int).drop_last() =~= chars@.take(j as int));
                assert(out@ =~= base + escape_quotes(chars@.take(j + 1 as int)));
            }
            j = j + 1;
        }
        out.push('"');
        proof {
            assert(chars@.take(chars@.len() as int) =~= chars@);
            assert(final(out)@ =~= old(out)@ + field_text(name@));
        }
    }
}

/// Appends the compact rendering of a value.
#[verifier::loop_isolation(false)]
pub fn write_value(out: &mut String, v: &Value)
    ensures
        final(out)@ == old(out)@ + value_text(v.deep()),
    decreases *v,
{
    broadcast use crate::value::lemma_deep_seq, crate::value::lemma_deep_fields;

    match v {
        Value::Null => {
            out.push('n');
            out.push('u');
            out.push('l');
            out.push('l');
            proof {
                assert(final(out)@ =~= old(out)@ + value_text(v.deep()));
            }
        },
        Value::Bool(b) => {
            if *b {
                out.push('t');
                out.push('r');
                out.push('u');
                out.push('e');
            } else {
                out.push('f');
                out.push('a');
                out.push('l');
                out.push('s');
                out.push('e');
            }
            proof {
                assert(final(out)@ =~= old(out)@ + value_text(v.deep()));
            }
        },
        Value::Num(n) => {
            push_i64(out, *n);
        },
        Value::Str(s) => {
            write_scalar_string(out, s.as_str());
        },
        Value::Arr(items) => {
            out.push('[');
            let ghost base = out@;
            let mut i: usize = 0;
            while i < items.len()
                invariant
                    0 <= i <= items@.len(),
                    out@ == base + arr_text(crate::value::deep_seq(items@).take(i as int)),
                decreases items@.len() - i,
            {
                if i > 0 {
                    out.push(',');
                }
                proof {
                    assert(decreases_to!(*v => v->Arr_0));
                    assert(v->Arr_0 == *items);
                    assert(decreases_to!(*items => items@[i as int]));
                }
                write_value(out, &items[i]);
                proof {
                    let ghost dv = crate::value::deep_seq(items@);
                    assert(dv.take(i + 1 as int).drop_last() =~= dv.take(i as int));
                    assert(dv.take(i + 1 as int).last() == items@[i as int].deep());
                    assert(out@ =~= base + arr_text(dv.take(i + 1 as int)));
                }
                i = i + 1;
            }
            out.push(']');
            proof {
                let ghost dv = crate::value::deep_seq(items@);
                assert(dv.take(dv.len() as int) =~= dv);
                assert(final(out)@ =~= old(out)@ + value_text(v.deep()));
            }
        },
        Value::Obj(fields) => {
            out.push('{');
            let ghost base = out@;
            let mut i: usize = 0;
            while i < fields.len()
                invariant
                    0 <= i <= fields@.len(),
                    out@ == base + obj_text(crate::value::deep_fields(fields@).take(i as int)),
                decreases fields@.len() - i,
            {
                if i > 0 {
                    out.push(',');
                }
                let ghost mid = out@;
                let pair = &fields[i];
                write_scalar_string(out, pair.0.as_str());
                out.push(':');
                proof {
                    assert(decreases_to!(*v => v->Obj_0));
                    assert(v->Obj_0 == *fields);
                    assert(decreases_to!(*fields => fields@[i as int]));
                    assert(decreases_to!(fields@[i as int] => fields@[i as int].1));
                }
                write_value(out, &pair.1);
                proof {
                    let ghost dv = crate::value::deep_fields(fields@);
                    let ghost keyv = fields@[i as int].0@;
                    let ghost valv = fields@[i as int].1.deep();
                    assert(dv.take(i + 1 as int).drop_last() =~= dv.take(i as int));
                    assert(dv.take(i + 1 as int).last() == (keyv, valv));
                    assert(out@ =~= mid + pair_text((keyv, valv)));
                    if i == 0 {
                        assert(obj_text(dv.take(1)) == pair_text(dv.take(1)[0]));
                        assert(dv.take(1)[0] == (keyv, valv));
                    } else {
                        assert(obj_text(dv.take(i + 1 as int)) == obj_text(dv.take(i as int))
                            + seq![','] + pair_text((keyv, valv)));
                    }
                    assert(out@ =~= base + obj_text(dv.take(i + 1 as int)));
                }
                i = i + 1;
            }
            out.push('}');
            proof {
                let ghost dv = crate::value::deep_fields(fields@);
                assert(dv.take(dv.len() as int) =~= dv);
                assert(final(out)@ =~= old(out)@ + value_text(v.deep()));
            }
        },
    }
}

/// Appends `"s"`, escaping quotes and backslashes.
#[verifier::loop_isolation(false)]
fn write_scalar_string(out: &mut String, s: &str)
    ensures
        final(out)@ == old(out)@ + seq!['"'] + escape_scalar(s@) + seq!['"'],
{
    let chars = str_to_chars(s);
    out.push('"');
    let ghost base = out@;
    let mut j: usize = 0;
    while j < chars.len()
        invariant
            0 <= j <= chars@.len(),
            out@ == base + escape_scalar(chars@.take(j as int)),
        decreases chars@.len() - j,
    {
        let c = chars[j];
        if c == '"' {
            out.push('\\');
            out.push('"');
        } else if c == '\\' {
            out.push('\\');
            out.push('\\');
        } else {
            out.push(c);
        }
        proof {
            assert(chars@.take(j + 1 as int).drop_last() =~= chars@.take(j as int));
            assert(out@ =~= base + escape_scalar(chars@.take(j + 1 as int)));
        }
        j = j + 1;
    }
    out.push('"');
    proof {
        assert(chars@.take(chars@.len() as int) =~= chars@);
        assert(final(out)@ =~= old(out)@ + seq!['"'] + escape_scalar(s@) + seq!['"']);
    }
}

impl Element {
    /// Appends this element's text.
    pub fn write_text(&self, out: &mut String)
        ensures
            final(out)@ == old(out)@ + elem_text(self.deep()),
    {
        match self {
            Element::Field(name) => write_field(out, name.as_str()),
            Element::StaticField(name) => write_field(out, name),
            Element::Select(key, v) => {
                out.push('[');
                out.append(key.as_str());
                out.push('=');
                write_value(out, v);
                out.push(']');
                proof {
                    assert(final(out)@ =~= old(out)@ + elem_text(self.deep()));
                }
            },
            Element::Index(i) => {
                push_u64(out, *i as u64);
                proof {
                    assert(final(out)@ =~= old(out)@ + elem_text(self.deep()));
                }
            },
        }
    }
}

impl PathBuf {
    /// The textual rendering of this path.
    pub fn to_string(&self) -> (r: String)
        ensures
            r@ == path_text(self@),
    {
        let mut out = String::new();
        let mut i: usize = 0;
        while i < self.0.len()
            invariant
                0 <= i <= self.0@.len(),
                out@ == path_text(pview(self.0@).take(i as int)),
            decreases self.0@.len() - i,
        {
            self.0[i].write_text(&mut out);
            proof {
                assert(pview(self.0@).take(i + 1 as int).drop_last() =~= pview(self.0@).take(
                    i as int,
                ));
                assert(pview(self.0@).take(i + 1 as int).last() == self.0@[i as int].deep());
                assert(out@ =~= path_text(pview(self.0@).take(i as int)) + elem_text(
                    self.0@[i as int].deep(),
                ));
            }
            i = i + 1;
        }
        proof {
            assert(pview(self.0@).take(pview(self.0@).len() as int) =~= pview(self.0@));
        }
        out
    }
}

} // verus!

verus! {

/// RFC 6901 unescaping within one reference token: `~1` is `/`, `~0` is `~`.
pub open spec fn unescape_ptr(s: Seq<char>, i: int) -> Seq<char>
    decreases s.len() - i,
{
    if i < 0 || i >= s.len() {
        Seq::empty()
    } else if s[i] == '~' && i + 1 < s.len() && s[i + 1] == '1' {
        seq!['/'] + unescape_ptr(s, i + 2)
    } else if s[i] == '~' && i + 1 < s.len() && s[i + 1] == '0' {
        seq!['~'] + unescape_ptr(s, i + 2)
    } else {
        seq![s[i]] + unescape_ptr(s, i + 1)
    }
}

/// The field elements of a JSON pointer from segment start `i` on.
pub open spec fn rfc_fields(s: Seq<char>, i: int) -> Seq<ElementView>
    decreases s.len() - i,
{
    let e = crate::kinds::scan_slash(s, i);
    let fld = ElementView::Field(unescape_ptr(s.subrange(i, e), 0));
    if 0 <= i <= e && e < s.len() {
        seq![fld] + rfc_fields(s, e + 1)
    } else {
        seq![fld]
    }
}

/// The path of a JSON pointer: its `/`-separated reference tokens after the
/// first, each unescaped into a field element.
pub open spec fn spec_from_rfc6901(s: Seq<char>) -> Seq<ElementView> {
    let e0 = crate::kinds::scan_slash(s, 0);
    if e0 < s.len() {
        rfc_fields(s, e0 + 1)
    } else {
        Seq::empty()
    }
}

fn scan_slash_exec(chars: &Vec<char>, i: usize) -> (j: usize)
    requires
        i <= chars@.len(),
    ensures
        j as int == crate::kinds::scan_slash(chars@, i as int),
        i <= j <= chars@.len(),
{
    let mut j = i;
    while j < chars.len() && chars[j] != '/'
        invariant
            i <= j <= chars@.len(),
            crate::kinds::scan_slash(chars@, i as int) == crate::kinds::scan_slash(
                chars@,
                j as int,
            ),
        decreases chars@.len() - j,
    {
        j = j + 1;
    }
    j
}

#[verifier::loop_isolation(false)]
fn unescape_segment(chars: &Vec<char>, a: usize, b: usize) -> (r: String)
    requires
        a <= b <= chars@.len(),
    ensures
        r@ == unescape_ptr(chars@.subrange(a as int, b as int), 0),
{
    let ghost seg = chars@.subrange(a as int, b as int);
    let mut out = String::new();
    let mut k = a;
    while k < b
        invariant
            a <= k <= b,
            out@ + unescape_ptr(seg, k - a) == unescape_ptr(seg, 0),
        decreases b - k,
    {
        let c = chars[k];
        proof {
            assert(seg[k - a] == chars@[k as int]);
        }
        if c == '~' && k + 1 < b && chars[k + 1] == '1' {
            proof {
                assert(seg[k + 1 - a] == chars@[k + 1 as int]);
            }
            out.push('/');
            k = k + 2;
        } else if c == '~' && k + 1 < b && chars[k + 1] == '0' {
            proof {
                assert(seg[k + 1 - a] == chars@[k + 1 as int]);
            }
            out.push('~');
            k = k + 2;
        } else {
            proof {
                if k + 1 < b {
                    assert(seg[k + 1 - a] == chars@[k + 1 as int]);
                }
            }
            out.push(c);
            k = k + 1;
        }
        proof {
            assert(out@ + unescape_ptr(seg, k - a) =~= unescape_ptr(seg, 0));
        }
    }
    proof {
        assert(out@ =~= unescape_ptr(seg, 0));
    }
    out
}

impl PathBuf {
    /// Decode an RFC 6901 JSON pointer into a path of field elements.
    #[verifier::loop_isolation(false)]
    pub fn from_rfc6901(s: String) -> (r: PathBuf)
        ensures
            r@ == spec_from_rfc6901(s@),
    {
        let chars = crate::strutil::str_to_chars(s.as_str());
        let e0 = scan_slash_exec(&chars, 0);
        if e0 >= chars.len() {
            proof {
                assert(pview(Seq::<Element>::empty()) =~= Seq::<ElementView>::empty());
            }
            return PathBuf(Vec::new());
        }
        let mut out: Vec<Element> = Vec::new();
        let mut i: usize = e0 + 1;
        loop
            invariant
                i <= chars@.len(),
                spec_from_rfc6901(s@) == pview(out@) + rfc_fields(chars@, i as int),
            decreases chars@.len() - i,
        {
            let e = scan_slash_exec(&chars, i);
            let seg = unescape_segment(&chars, i, e);
            let ghost out0 = out@;
            out.push(Element::Field(seg));
            proof {
                assert(pview(out@) =~= pview(out0).push(
                    ElementView::Field(unescape_ptr(chars@.subrange(i as int, e as int), 0)),
                ));
            }
            if e < chars.len() {
                proof {
                    assert(pview(out0) + rfc_fields(chars@, i as int) =~= pview(out@) + rfc_fields(
                        chars@,
                        e + 1 as int,
                    ));
                }
                i = e + 1;
            } else {
                proof {
                    assert(pview(out0) + rfc_fields(chars@, i as int) =~= pview(out@));
                }
                return PathBuf(out);
            }
        }
    }
}

} // verus!
