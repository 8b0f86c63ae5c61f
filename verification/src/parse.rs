//! The field-path text parser. The grammar, given as spec functions over
//! character sequences, is the reference; the executable parser is proved to
//! return exactly what the grammar derives.
//!
//! ```text
//! path      := element+
//! element   := field | index | selector
//! field     := "." ( quoted | bare )
//! quoted    := '"' (ESC '"' | [^"\])* '"'  |  "'" (ESC "'" | [^'])* "'"
//! bare      := [^.\n\[]+
//! index     := "[" digit+ "]"
//! selector  := "[" [^=]+ "=" quoted "]"
//! ```

use vstd::prelude::*;
use crate::element::{pview, Element, ElementView, PathBuf};
use crate::strutil::str_to_chars;
use crate::value::{Value, ValueView};

verus! {

pub open spec fn is_digit(c: char) -> bool {
    48 <= c as u32 <= 57
}

pub open spec fn digit_val(c: char) -> int {
    if is_digit(c) {
        c as u32 - 48
    } else {
        0
    }
}

/// A character a bare field name may contain.
pub open spec fn is_bare(c: char) -> bool {
    c != '.' && c != '\n' && c != '['
}

/// First position at or after `i` that is not a digit (or the end).
pub open spec fn scan_digits(s: Seq<char>, i: int) -> int
    decreases s.len() - i,
{
    if 0 <= i < s.len() && is_digit(s[i]) {
        scan_digits(s, i + 1)
    } else {
        i
    }
}

/// First position at or after `i` that may not stand in a bare name.
pub open spec fn scan_bare(s: Seq<char>, i: int) -> int
    decreases s.len() - i,
{
    if 0 <= i < s.len() && is_bare(s[i]) {
        scan_bare(s, i + 1)
    } else {
        i
    }
}

/// First position at or after `i` holding `=` (or the end).
pub open spec fn scan_key(s: Seq<char>, i: int) -> int
    decreases s.len() - i,
{
    if 0 <= i < s.len() && s[i] != '=' {
        scan_key(s, i + 1)
    } else {
        i
    }
}

/// The numeric value of the digit run `s[i..j]`.
pub open spec fn digits_val(s: Seq<char>, i: int, j: int) -> int
    decreases j - i,
{
    if i >= j {
        0
    } else {
        digits_val(s, i, j - 1) * 10 + digit_val(s[j - 1])
    }
}

/// Double-quoted content from `i` to the closing quote: the unescaped
/// characters and the position after the quote. Only `\"` is an escape; a
/// backslash before anything else fails.
pub open spec fn scan_dq(s: Seq<char>, i: int) -> Option<(Seq<char>, int)>
    decreases s.len() - i,
{
    if i < 0 || i >= s.len() {
        None
    } else if s[i] == '"' {
        Some((Seq::empty(), i + 1))
    } else if s[i] == '\\' {
        if i + 1 < s.len() && s[i + 1] == '"' {
            match scan_dq(s, i + 2) {
                Some((c, n)) => Some((seq!['"'] + c, n)),
                None => None,
            }
        } else {
            None
        }
    } else {
        match scan_dq(s, i + 1) {
            Some((c, n)) => Some((seq![s[i]] + c, n)),
            None => None,
        }
    }
}

/// Single-quoted content: only `\'` is an escape; a lone backslash is an
/// ordinary character.
pub open spec fn scan_sq(s: Seq<char>, i: int) -> Option<(Seq<char>, int)>
    decreases s.len() - i,
{
    if i < 0 || i >= s.len() {
        None
    } else if s[i] == '\'' {
        Some((Seq::empty(), i + 1))
    } else if s[i] == '\\' && i + 1 < s.len() && s[i + 1] == '\'' {
        match scan_sq(s, i + 2) {
            Some((c, n)) => Some((seq!['\''] + c, n)),
            None => None,
        }
    } else {
        match scan_sq(s, i + 1) {
            Some((c, n)) => Some((seq![s[i]] + c, n)),
            None => None,
        }
    }
}

/// A quoted string literal at `i`: double- or single-quoted, non-empty.
pub open spec fn parse_string(s: Seq<char>, i: int) -> Option<(Seq<char>, int)> {
    if 0 <= i < s.len() && s[i] == '"' {
        match scan_dq(s, i + 1) {
            Some((c, n)) => if c.len() > 0 {
                Some((c, n))
            } else {
                None
            },
            None => None,
        }
    } else if 0 <= i < s.len() && s[i] == '\'' {
        match scan_sq(s, i + 1) {
            Some((c, n)) => if c.len() > 0 {
                Some((c, n))
            } else {
                None
            },
            None => None,
        }
    } else {
        None
    }
}

/// A field element at `i` (where `s[i] == '.'`): a quoted name, or else a
/// non-empty bare run.
pub open spec fn parse_field(s: Seq<char>, i: int) -> Option<(ElementView, int)> {
    match parse_string(s, i + 1) {
        Some((name, n)) => Some((ElementView::Field(name), n)),
        None => {
            let j = scan_bare(s, i + 1);
            if j > i + 1 {
                Some((ElementView::Field(s.subrange(i + 1, j)), j))
            } else {
                None
            }
        },
    }
}

/// A selector at `i` (where `s[i] == '['`): a key up to `=`, then a quoted
/// string value, then `]`.
pub open spec fn parse_selector(s: Seq<char>, i: int) -> Option<(ElementView, int)> {
    let k = scan_key(s, i + 1);
    if k > i + 1 && k < s.len() && s[k] == '=' {
        match parse_string(s, k + 1) {
            Some((val, n)) => if n < s.len() && s[n] == ']' {
                Some(
                    (
                        ElementView::Select(s.subrange(i + 1, k), ValueView::Str(val)),
                        n + 1,
                    ),
                )
            } else {
                None
            },
            None => None,
        }
    } else {
        None
    }
}

/// At `[`: an index when a digit run reaches `]` (with overflow failing the
/// parse), else a selector.
pub open spec fn parse_bracket(s: Seq<char>, i: int) -> Option<(ElementView, int)> {
    let j = scan_digits(s, i + 1);
    if j > i + 1 && j < s.len() && s[j] == ']' {
        if digits_val(s, i + 1, j) <= usize::MAX as int {
            Some((ElementView::Index(digits_val(s, i + 1, j)), j + 1))
        } else {
            None
        }
    } else {
        parse_selector(s, i)
    }
}

pub open spec fn parse_element(s: Seq<char>, i: int) -> Option<(ElementView, int)> {
    if 0 <= i < s.len() && s[i] == '.' {
        parse_field(s, i)
    } else if 0 <= i < s.len() && s[i] == '[' {
        parse_bracket(s, i)
    } else {
        None
    }
}

/// The elements derived from `s[i..]`; the whole rest must be consumed.
pub open spec fn parse_path_from(s: Seq<char>, i: int) -> Option<Seq<ElementView>>
    decreases s.len() - i,
{
    if i >= s.len() {
        Some(Seq::empty())
    } else {
        match parse_element(s, i) {
            Some((e, n)) => if i < n <= s.len() {
                match parse_path_from(s, n) {
                    Some(rest) => Some(seq![e] + rest),
                    None => None,
                }
            } else {
                None
            },
            None => None,
        }
    }
}

/// What the path grammar derives from `s`: at least one element, consuming
/// all of `s`.
pub open spec fn spec_parse(s: Seq<char>) -> Option<Seq<ElementView>> {
    if s.len() == 0 {
        None
    } else {
        parse_path_from(s, 0)
    }
}

/// A parse failure, with the 1-based line and column it was noticed at.
#[derive(Debug, PartialEq)]
pub struct ParseError {
    pub line: usize,
    pub column: usize,
}

/// How a digit scan ends: everything skipped is a digit, and the stop is
/// not (or the end).
pub proof fn lemma_scan_digits(s: Seq<char>, i: int)
    requires
        0 <= i <= s.len(),
    ensures
        i <= scan_digits(s, i) <= s.len(),
        forall|k: int| i <= k < scan_digits(s, i) ==> is_digit(s[k]),
        scan_digits(s, i) < s.len() ==> !is_digit(s[scan_digits(s, i)]),
    decreases s.len() - i,
{
    if i < s.len() && is_digit(s[i]) {
        lemma_scan_digits(s, i + 1);
    }
}

} // verus!

verus! {

fn is_digit_exec(c: char) -> (r: bool)
    ensures
        r == is_digit(c),
{
    let u = c as u32;
    48 <= u && u <= 57
}

fn is_bare_exec(c: char) -> (r: bool)
    ensures
        r == is_bare(c),
{
    c != '.' && c != '\n' && c != '['
}

/// The characters `chars[a..b]`, as a string.
pub(crate) fn chars_to_string(chars: &Vec<char>, a: usize, b: usize) -> (r: String)
    requires
        a <= b <= chars@.len(),
    ensures
        r@ == chars@.subrange(a as int, b as int),
{
    let mut out = String::new();
    let mut i: usize = a;
    while i < b
        invariant
            a <= i <= b <= chars@.len(),
            out@ == chars@.subrange(a as int, i as int),
        decreases b - i,
    {
        out.push(chars[i]);
        proof {
            assert(chars@.subrange(a as int, i + 1 as int) =~= chars@.subrange(
                a as int,
                i as int,
            ).push(chars@[i as int]));
        }
        i = i + 1;
    }
    out
}

fn exec_scan_digits(chars: &Vec<char>, i: usize) -> (j: usize)
    requires
        i <= chars@.len(),
    ensures
        j as int == scan_digits(chars@, i as int),
        i <= j <= chars@.len(),
{
    let mut j = i;
    while j < chars.len() && is_digit_exec(chars[j])
        invariant
            i <= j <= chars@.len(),
            scan_digits(chars@, i as int) == scan_digits(chars@, j as int),
        decreases chars@.len() - j,
    {
        j = j + 1;
    }
    j
}

fn exec_scan_bare(chars: &Vec<char>, i: usize) -> (j: usize)
    requires
        i <= chars@.len(),
    ensures
        j as int == scan_bare(chars@, i as int),
        i <= j <= chars@.len(),
{
    let mut j = i;
    while j < chars.len() && is_bare_exec(chars[j])
        invariant
            i <= j <= chars@.len(),
            scan_bare(chars@, i as int) == scan_bare(chars@, j as int),
        decreases chars@.len() - j,
    {
        j = j + 1;
    }
    j
}

fn exec_scan_key(chars: &Vec<char>, i: usize) -> (j: usize)
    requires
        i <= chars@.len(),
    ensures
        j as int == scan_key(chars@, i as int),
        i <= j <= chars@.len(),
{
    let mut j = i;
    while j < chars.len() && chars[j] != '='
        invariant
            i <= j <= chars@.len(),
            scan_key(chars@, i as int) == scan_key(chars@, j as int),
        decreases chars@.len() - j,
    {
        j = j + 1;
    }
    j
}

fn exec_scan_dq(chars: &Vec<char>, start: usize) -> (r: Option<(String, usize)>)
    requires
        start <= chars@.len(),
    ensures
        match r {
            Some(p) => scan_dq(chars@, start as int) == Some((p.0@, p.1 as int)) && start < p.1
                <= chars@.len(),
            None => scan_dq(chars@, start as int) is None,
        },
{
    let ghost s = chars@;
    let mut acc = String::new();
    let mut i = start;
    loop
        invariant
            start <= i <= s.len(),
            s == chars@,
            scan_dq(s, start as int) == (match scan_dq(s, i as int) {
                Some((c, n)) => Some((acc@ + c, n)),
                None => None::<(Seq<char>, int)>,
            }),
        decreases s.len() - i,
    {
        if i >= chars.len() {
            return None;
        }
        let c = chars[i];
        if c == '"' {
            proof {
                assert(acc@ + Seq::<char>::empty() =~= acc@);
            }
            return Some((acc, i + 1));
        } else if c == '\\' {
            if i + 1 < chars.len() && chars[i + 1] == '"' {
                acc.push('"');
                proof {
                    match scan_dq(s, i + 2) {
                        Some(p2) => {
                            assert(acc@ + p2.0 =~= (acc@.drop_last() + (seq!['"'] + p2.0)));
                        },
                        None => {},
                    }
                }
                i = i + 2;
            } else {
                return None;
            }
        } else {
            acc.push(c);
            proof {
                match scan_dq(s, i + 1) {
                    Some(p2) => {
                        assert(acc@ + p2.0 =~= (acc@.drop_last() + (seq![s[i as int]] + p2.0)));
                    },
                    None => {},
                }
            }
            i = i + 1;
        }
    }
}

fn exec_scan_sq(chars: &Vec<char>, start: usize) -> (r: Option<(String, usize)>)
    requires
        start <= chars@.len(),
    ensures
        match r {
            Some(p) => scan_sq(chars@, start as int) == Some((p.0@, p.1 as int)) && start < p.1
                <= chars@.len(),
            None => scan_sq(chars@, start as int) is None,
        },
{
    let ghost s = chars@;
    let mut acc = String::new();
    let mut i = start;
    loop
        invariant
            start <= i <= s.len(),
            s == chars@,
            scan_sq(s, start as int) == (match scan_sq(s, i as int) {
                Some((c, n)) => Some((acc@ + c, n)),
                None => None::<(Seq<char>, int)>,
            }),
        decreases s.len() - i,
    {
        if i >= chars.len() {
            return None;
        }
        let c = chars[i];
        if c == '\'' {
            proof {
                assert(acc@ + Seq::<char>::empty() =~= acc@);
            }
            return Some((acc, i + 1));
        } else if c == '\\' && i + 1 < chars.len() && chars[i + 1] == '\'' {
            acc.push('\'');
            proof {
                match scan_sq(s, i + 2) {
                    Some(p2) => {
                        assert(acc@ + p2.0 =~= (acc@.drop_last() + (seq!['\''] + p2.0)));
                    },
                    None => {},
                }
            }
            i = i + 2;
        } else {
            acc.push(c);
            proof {
                match scan_sq(s, i + 1) {
                    Some(p2) => {
                        assert(acc@ + p2.0 =~= (acc@.drop_last() + (seq![s[i as int]] + p2.0)));
                    },
                    None => {},
                }
            }
            i = i + 1;
        }
    }
}

fn exec_parse_string(chars: &Vec<char>, i: usize) -> (r: Option<(String, usize)>)
    requires
        i <= chars@.len(),
    ensures
        match r {
            Some(p) => parse_string(chars@, i as int) == Some((p.0@, p.1 as int)) && i < p.1
                <= chars@.len(),
            None => parse_string(chars@, i as int) is None,
        },
{
    if i < chars.len() && chars[i] == '"' {
        match exec_scan_dq(chars, i + 1) {
            Some((c, n)) => {
                if c.unicode_len() > 0 {
                    Some((c, n))
                } else {
                    None
                }
            },
            None => None,
        }
    } else if i < chars.len() && chars[i] == '\'' {
        match exec_scan_sq(chars, i + 1) {
            Some((c, n)) => {
                if c.unicode_len() > 0 {
                    Some((c, n))
                } else {
                    None
                }
            },
            None => None,
        }
    } else {
        None
    }
}

proof fn lemma_digits_val_nonneg(s: Seq<char>, a: int, b: int)
    ensures
        digits_val(s, a, b) >= 0,
    decreases b - a,
{
    if a < b {
        lemma_digits_val_nonneg(s, a, b - 1);
    }
}

fn exec_digits_val(chars: &Vec<char>, a: usize, b: usize) -> (r: Option<usize>)
    requires
        a <= b <= chars@.len(),
        forall|k: int| a <= k < b ==> is_digit(chars@[k]),
    ensures
        match r {
            Some(v) => v as int == digits_val(chars@, a as int, b as int),
            None => digits_val(chars@, a as int, b as int) > usize::MAX as int,
        },
{
    let ghost s = chars@;
    let mut val: usize = 0;
    let mut k = a;
    while k < b
        invariant
            a <= k <= b <= s.len(),
            s == chars@,
            forall|j: int| a <= j < b ==> is_digit(s[j]),
            val as int == digits_val(s, a as int, k as int),
        decreases b - k,
    {
        let d = ((chars[k] as u32) - 48) as usize;
        assert(d <= 9);
        if val > (usize::MAX - d) / 10 {
            proof {
                assert(digits_val(s, a as int, k + 1 as int) == val * 10 + d);
                assert(val * 10 + d > usize::MAX as int);
                lemma_digits_mono(s, a as int, k + 1 as int, b as int);
            }
            return None;
        }
        val = val * 10 + d;
        k = k + 1;
    }
    Some(val)
}

/// A digit run's value never shrinks as it extends.
proof fn lemma_digits_mono(s: Seq<char>, a: int, m: int, b: int)
    requires
        a <= m <= b,
    ensures
        digits_val(s, a, m) <= digits_val(s, a, b),
    decreases b - m,
{
    if m < b {
        lemma_digits_mono(s, a, m + 1, b);
        lemma_digits_val_nonneg(s, a, m);
        assert(digits_val(s, a, m + 1) == digits_val(s, a, m) * 10 + digit_val(s[m]));
        assert(digits_val(s, a, m) * 10 >= digits_val(s, a, m));
    }
}

fn exec_parse_element(chars: &Vec<char>, i: usize) -> (r: Option<(Element, usize)>)
    requires
        i <= chars@.len(),
    ensures
        match r {
            Some(p) => parse_element(chars@, i as int) == Some((p.0.deep(), p.1 as int)) && i < p.1
                <= chars@.len(),
            None => parse_element(chars@, i as int) is None,
        },
{
    if i < chars.len() && chars[i] == '.' {
        match exec_parse_string(chars, i + 1) {
            Some((name, n)) => Some((Element::Field(name), n)),
            None => {
                let j = exec_scan_bare(chars, i + 1);
                if j > i + 1 {
                    Some((Element::Field(chars_to_string(chars, i + 1, j)), j))
                } else {
                    None
                }
            },
        }
    } else if i < chars.len() && chars[i] == '[' {
        let j = exec_scan_digits(chars, i + 1);
        if j > i + 1 && j < chars.len() && chars[j] == ']' {
            proof {
                lemma_scan_digits(chars@, i + 1 as int);
            }
            match exec_digits_val(chars, i + 1, j) {
                Some(v) => Some((Element::Index(v), j + 1)),
                None => None,
            }
        } else {
            let k = exec_scan_key(chars, i + 1);
            if k > i + 1 && k < chars.len() && chars[k] == '=' {
                match exec_parse_string(chars, k + 1) {
                    Some((val, n)) => {
                        if n < chars.len() && chars[n] == ']' {
                            let key = chars_to_string(chars, i + 1, k);
                            Some((Element::Select(key, Value::Str(val)), n + 1))
                        } else {
                            None
                        }
                    },
                    None => None,
                }
            } else {
                None
            }
        }
    } else {
        None
    }
}

pub(crate) fn make_err(chars: &Vec<char>, pos: usize) -> (r: ParseError)
    requires
        pos <= chars@.len(),
{
    let mut line: usize = 1;
    let mut column: usize = 1;
    let mut i: usize = 0;
    while i < pos
        invariant
            0 <= i <= pos <= chars@.len(),
        decreases pos - i,
    {
        if chars[i] == '\n' {
            if line < usize::MAX {
                line = line + 1;
            }
            column = 1;
        } else {
            if column < usize::MAX {
                column = column + 1;
            }
        }
        i = i + 1;
    }
    ParseError { line, column }
}

/// Parse a textual field path. Returns the parsed path exactly when the
/// grammar derives one from the whole input, and a located error otherwise.
#[verifier::loop_isolation(false)]
pub fn parse(input: &str) -> (r: Result<PathBuf, ParseError>)
    ensures
        match r {
            Ok(pb) => spec_parse(input@) == Some(pview(pb.0@)),
            Err(_) => spec_parse(input@) is None,
        },
{
    let chars = str_to_chars(input);
    let ghost s = input@;
    if chars.len() == 0 {
        return Err(ParseError { line: 1, column: 1 });
    }
    let mut elems: Vec<Element> = Vec::new();
    let mut pos: usize = 0;
    while pos < chars.len()
        invariant
            0 <= pos <= s.len(),
            s == chars@,
            s.len() > 0,
            parse_path_from(s, 0) == (match parse_path_from(s, pos as int) {
                Some(rest) => Some(pview(elems@) + rest),
                None => None::<Seq<ElementView>>,
            }),
        decreases s.len() - pos,
    {
        let ghost elems0 = elems@;
        match exec_parse_element(&chars, pos) {
            Some((e, n)) => {
                elems.push(e);
                proof {
                    assert(pview(elems@) =~= pview(elems0) + seq![elems@[elems@.len() - 1].deep()]);
                    match parse_path_from(s, n as int) {
                        Some(rest2) => {
                            assert(pview(elems0) + (seq![elems@[elems@.len() - 1].deep()] + rest2)
                                =~= pview(elems@) + rest2);
                        },
                        None => {},
                    }
                }
                pos = n;
            },
            None => {
                proof {
                    assert(parse_path_from(s, pos as int) is None);
                }
                return Err(make_err(&chars, pos));
            },
        }
    }
    proof {
        assert(parse_path_from(s, pos as int) == Some(Seq::<ElementView>::empty()));
        assert(pview(elems@) + Seq::<ElementView>::empty() =~= pview(elems@));
    }
    Ok(PathBuf(elems))
}

} // verus!

verus! {

// ------------------------------------------------------------------
// The rendering/parsing round trip.
// ------------------------------------------------------------------

/// A field name whose rendering parses back to itself: quoted names must be
/// free of backslashes (the only escape is `\"`); bare names must be
/// non-empty, free of the characters that end a bare run, and must not start
/// with a single quote (which would start a quoted literal).
pub open spec fn displayable_field(name: Seq<char>) -> bool {
    if crate::element::needs_quote(name) {
        !name.contains('\\')
    } else {
        name.len() > 0 && !name.contains('[') && !name.contains('\n') && name[0] != '\''
    }
}

/// A digit run at the start of the key followed by `]` would make the
/// selector's opening look like an index element.
pub open spec fn key_digits_clash(key: Seq<char>) -> bool {
    exists|m: int|
        1 <= m < key.len() && (forall|k: int| 0 <= k < m ==> is_digit(#[trigger] key[k]))
            && key[m] == ']'
}

/// A selector whose rendering parses back to itself: a non-empty key free of
/// `=` that cannot be mistaken for an index, and a non-empty string value
/// free of backslashes.
pub open spec fn displayable_select(key: Seq<char>, v: ValueView) -> bool {
    key.len() > 0 && !key.contains('=') && !key_digits_clash(key) && match v {
        ValueView::Str(sv) => sv.len() > 0 && !sv.contains('\\'),
        _ => false,
    }
}

/// An element whose rendering parses back to itself. An `Index` renders
/// without the brackets the parser needs, so it is never displayable: the
/// known round-trip gap.
pub open spec fn displayable_elem(e: ElementView) -> bool {
    match e {
        ElementView::Field(name) => displayable_field(name),
        ElementView::Select(key, v) => displayable_select(key, v),
        ElementView::Index(_) => false,
    }
}

pub open spec fn displayable(p: Seq<ElementView>) -> bool {
    forall|i: int| 0 <= i < p.len() ==> displayable_elem(#[trigger] p[i])
}

proof fn lemma_path_text_concat(a: Seq<ElementView>, b: Seq<ElementView>)
    ensures
        crate::element::path_text(a + b) == crate::element::path_text(a)
            + crate::element::path_text(b),
    decreases b.len(),
{
    if b.len() == 0 {
        assert(a + b =~= a);
        assert(crate::element::path_text(a) + crate::element::path_text(b) =~=
            crate::element::path_text(a));
    } else {
        lemma_path_text_concat(a, b.drop_last());
        assert((a + b).drop_last() =~= a + b.drop_last());
        assert((a + b).last() == b.last());
        assert(crate::element::path_text(a + b) =~= crate::element::path_text(a)
            + crate::element::path_text(b));
    }
}

proof fn lemma_path_text_first(p: Seq<ElementView>)
    requires
        p.len() > 0,
    ensures
        crate::element::path_text(p) == crate::element::elem_text(p[0]) + crate::element::path_text(
            p.drop_first(),
        ),
{
    assert(p =~= seq![p[0]] + p.drop_first());
    lemma_path_text_concat(seq![p[0]], p.drop_first());
    let single = seq![p[0]];
    assert(single.drop_last() =~= Seq::<ElementView>::empty());
    assert(crate::element::path_text(single.drop_last()) =~= Seq::<char>::empty());
    assert(single.last() == p[0]);
    assert(crate::element::path_text(single) =~= crate::element::elem_text(p[0]));
}

proof fn lemma_escape_quotes_first(name: Seq<char>)
    requires
        name.len() > 0,
    ensures
        crate::element::escape_quotes(name) == (if name[0] == '"' {
            seq!['\\', '"']
        } else {
            seq![name[0]]
        }) + crate::element::escape_quotes(name.drop_first()),
    decreases name.len(),
{
    let head: Seq<char> = if name[0] == '"' {
        seq!['\\', '"']
    } else {
        seq![name[0]]
    };
    if name.len() == 1 {
        assert(name.drop_last() =~= Seq::<char>::empty());
        assert(name.drop_first() =~= Seq::<char>::empty());
        assert(name.last() == name[0]);
        assert(crate::element::escape_quotes(name) =~= head + crate::element::escape_quotes(
            name.drop_first(),
        ));
    } else {
        lemma_escape_quotes_first(name.drop_last());
        assert(name.drop_last()[0] == name[0]);
        assert(name.drop_last().drop_first() =~= name.drop_first().drop_last());
        assert(name.drop_first().last() == name.last());
        assert(crate::element::escape_quotes(name) =~= head + crate::element::escape_quotes(
            name.drop_first(),
        ));
    }
}

proof fn lemma_escape_scalar_no_bs(s: Seq<char>)
    requires
        !s.contains('\\'),
    ensures
        crate::element::escape_scalar(s) == crate::element::escape_quotes(s),
    decreases s.len(),
{
    if s.len() > 0 {
        if s.last() == '\\' {
            assert(s.contains('\\'));
        }
        if s.drop_last().contains('\\') {
            let k = choose|k: int| 0 <= k < s.drop_last().len() && s.drop_last()[k] == '\\';
            assert(s[k] == '\\');
            assert(s.contains('\\'));
        }
        lemma_escape_scalar_no_bs(s.drop_last());
    }
}

/// Scanning the escaped rendering of a backslash-free name consumes exactly
/// the rendering and yields the name back.
proof fn lemma_scan_dq_exact(s: Seq<char>, i: int, name: Seq<char>)
    requires
        0 <= i,
        !name.contains('\\'),
        i + crate::element::escape_quotes(name).len() < s.len(),
        s.subrange(i, i + crate::element::escape_quotes(name).len()) == crate::element::escape_quotes(
            name,
        ),
        s[i + crate::element::escape_quotes(name).len()] == '"',
    ensures
        scan_dq(s, i) == Some((name, i + crate::element::escape_quotes(name).len() + 1)),
    decreases name.len(),
{
    let esc = crate::element::escape_quotes(name);
    if name.len() == 0 {
        assert(esc =~= Seq::<char>::empty());
        assert(s[i] == '"');
    } else {
        lemma_escape_quotes_first(name);
        if name[0] == '\\' {
            assert(name.contains('\\'));
        }
        if name.drop_first().contains('\\') {
            let k = choose|k: int|
                0 <= k < name.drop_first().len() && name.drop_first()[k] == '\\';
            assert(name[k + 1] == '\\');
            assert(name.contains('\\'));
        }
        let rest = name.drop_first();
        let esc2 = crate::element::escape_quotes(rest);
        if name[0] == '"' {
            assert(esc[0] == '\\');
            assert(esc[1] == '"');
            assert(s.subrange(i, i + esc.len())[0] == s[i]);
            assert(s.subrange(i, i + esc.len())[1] == s[i + 1]);
            assert(s[i] == '\\');
            assert(s[i + 1] == '"');
            assert(s.subrange(i + 2, i + 2 + esc2.len()) =~= esc2) by {
                assert(forall|t: int|
                    0 <= t < esc2.len() ==> s.subrange(i + 2, i + 2 + esc2.len())[t] == s[i + 2 + t]
                        && s.subrange(i, i + esc.len())[t + 2] == s[i + 2 + t] && esc[t + 2]
                        == esc2[t]);
            }
            lemma_scan_dq_exact(s, i + 2, rest);
            assert(seq!['"'] + rest =~= name);
        } else {
            assert(esc[0] == name[0]);
            assert(s.subrange(i, i + esc.len())[0] == s[i]);
            assert(s[i] == name[0]);
            assert(s[i] != '"' && s[i] != '\\');
            assert(s.subrange(i + 1, i + 1 + esc2.len()) =~= esc2) by {
                assert(forall|t: int|
                    0 <= t < esc2.len() ==> s.subrange(i + 1, i + 1 + esc2.len())[t] == s[i + 1 + t]
                        && s.subrange(i, i + esc.len())[t + 1] == s[i + 1 + t] && esc[t + 1]
                        == esc2[t]);
            }
            lemma_scan_dq_exact(s, i + 1, rest);
            assert(seq![s[i]] + rest =~= name);
        }
    }
}

proof fn lemma_scan_bare_exact(s: Seq<char>, i: int, j: int)
    requires
        0 <= i <= j <= s.len(),
        forall|k: int| i <= k < j ==> is_bare(#[trigger] s[k]),
        j == s.len() || !is_bare(s[j]),
    ensures
        scan_bare(s, i) == j,
    decreases j - i,
{
    if i < j {
        lemma_scan_bare_exact(s, i + 1, j);
    }
}

proof fn lemma_scan_key_exact(s: Seq<char>, i: int, j: int)
    requires
        0 <= i <= j <= s.len(),
        forall|k: int| i <= k < j ==> #[trigger] s[k] != '=',
        j == s.len() || s[j] == '=',
    ensures
        scan_key(s, i) == j,
    decreases j - i,
{
    if i < j {
        lemma_scan_key_exact(s, i + 1, j);
    }
}

proof fn lemma_elem_text_first(e: ElementView)
    requires
        displayable_elem(e),
    ensures
        crate::element::elem_text(e).len() > 0,
        crate::element::elem_text(e)[0] == '.' || crate::element::elem_text(e)[0] == '[',
{
    match e {
        ElementView::Field(name) => {
            if crate::element::needs_quote(name) {
                assert(crate::element::elem_text(e)[0] == '.');
            } else {
                assert(crate::element::elem_text(e)[0] == '.');
            }
        },
        ElementView::Select(key, v) => {
            assert(crate::element::elem_text(e)[0] == '[');
        },
        ElementView::Index(_) => {
            assert(false);
        },
    }
}

} // verus!

verus! {

/// Parsing at the start of a displayable field element's rendering.
#[verifier::rlimit(60)]
proof fn lemma_parse_elem_field(s: Seq<char>, i: int, e: ElementView, rest: Seq<char>)
    requires
        displayable_elem(e),
        0 <= i <= s.len(),
        s.subrange(i, s.len() as int) == crate::element::elem_text(e) + rest,
        rest.len() == 0 || rest[0] == '.' || rest[0] == '[',
        e is Field,
    ensures
        parse_element(s, i) == Some((e, i + crate::element::elem_text(e).len())),
{
    let et = crate::element::elem_text(e);
    let tail = et + rest;
    assert(s.len() == i + tail.len());
    assert forall|t: int| 0 <= t < tail.len() implies s[i + t] == tail[t] by {
        assert(s.subrange(i, s.len() as int)[t] == s[i + t]);
    }
    let name = e->Field_0;
            if !crate::element::needs_quote(name) {
                // bare rendering: '.' then the name itself
                assert(et =~= seq!['.'] + name);
                assert(name.len() > 0);
                assert(s[i + 0] == tail[0]);
                assert(tail[0] == et[0]);
                assert(s[i] == '.');
                assert forall|t: int| 0 <= t < name.len() implies s[i + 1 + t] == name[t] by {
                    assert(tail[1 + t] == et[1 + t]);
                    assert(et[1 + t] == name[t]);
                }
                // the quoted branches do not fire
                assert(s[i + 1] == name[0]);
                if name[0] == '"' {
                    assert(name.contains('"'));
                }
                assert(name[0] != '\'');
                assert(parse_string(s, i + 1) is None);
                // the bare scan stops exactly at the end of the name
                let j = i + 1 + name.len();
                assert forall|k: int| i + 1 <= k < j implies is_bare(#[trigger] s[k]) by {
                    let t = k - i - 1;
                    assert(s[k] == name[t]);
                    if name[t] == '.' {
                        assert(name.contains('.'));
                    }
                    if name[t] == '\n' {
                        assert(name.contains('\n'));
                    }
                    if name[t] == '[' {
                        assert(name.contains('['));
                    }
                }
                if j < s.len() {
                    assert(s[j] == tail[j - i]);
                    assert(tail[j - i] == rest[0]);
                    assert(!is_bare(s[j]));
                }
                lemma_scan_bare_exact(s, i + 1, j);
                assert(s.subrange(i + 1, j) =~= name);
            } else {
                // quoted rendering: '."' then the escaped name then '"'
                let esc = crate::element::escape_quotes(name);
                assert(et =~= seq!['.', '"'] + esc + seq!['"']);
                assert(s[i + 0] == tail[0]);
                assert(tail[0] == et[0]);
                assert(s[i] == '.');
                assert(s[i + 1] == tail[1]);
                assert(tail[1] == et[1]);
                assert(et[1] == '"');
                assert(s[i + 1] == '"');
                if name.len() == 0 {
                    assert(!name.contains('"') && !name.contains('.'));
                    assert(false);
                }
                assert(s.subrange(i + 2, i + 2 + esc.len()) =~= esc) by {
                    assert(forall|t: int|
                        0 <= t < esc.len() ==> s.subrange(i + 2, i + 2 + esc.len())[t] == s[i + 2
                            + t] && tail[2 + t] == et[2 + t] && et[2 + t] == esc[t]);
                }
                let cq = 2 + esc.len() as int;
                assert(s[i + cq] == tail[cq]);
                assert(tail[cq] == et[cq]);
                assert(et[cq] == '"');
                assert(s[i + 2 + esc.len()] == '"');
                lemma_scan_dq_exact(s, i + 2, name);
                assert(parse_string(s, i + 1) == Some((name, i + 2 + esc.len() + 1)));
                assert(i + 2 + esc.len() + 1 == i + et.len());
            }
    assert(parse_element(s, i) == Some((e, i + crate::element::elem_text(e).len())));
}

/// Parsing at the start of a displayable selector element's rendering.
#[verifier::rlimit(100)]
proof fn lemma_parse_elem_select(s: Seq<char>, i: int, e: ElementView, rest: Seq<char>)
    requires
        displayable_elem(e),
        0 <= i <= s.len(),
        s.subrange(i, s.len() as int) == crate::element::elem_text(e) + rest,
        rest.len() == 0 || rest[0] == '.' || rest[0] == '[',
        e is Select,
    ensures
        parse_element(s, i) == Some((e, i + crate::element::elem_text(e).len())),
{
    let et = crate::element::elem_text(e);
    let tail = et + rest;
    assert(s.len() == i + tail.len());
    assert forall|t: int| 0 <= t < tail.len() implies s[i + t] == tail[t] by {
        assert(s.subrange(i, s.len() as int)[t] == s[i + t]);
    }
    let key = e->Select_0;
    let v = e->Select_1;
            let sv = v->Str_0;
            assert(v == ValueView::Str(sv));
            let esc = crate::element::escape_scalar(sv);
            assert(crate::element::value_text(v) =~= seq!['"'] + esc + seq!['"']);
            assert(et =~= seq!['['] + key + seq!['='] + (seq!['"'] + esc + seq!['"'])
                + seq![']']);
            let eq_pos = i + 1 + key.len();
            let q1 = eq_pos + 1;
            let close_q = q1 + 1 + esc.len();
            let brk = close_q + 1;
            assert(s[i + 0] == tail[0]);
            assert(tail[0] == et[0]);
            assert(et[0] == '[');
            assert(s[i] == '[');
            assert forall|t: int| 0 <= t < key.len() implies s[i + 1 + t] == key[t] by {
                assert(tail[1 + t] == et[1 + t]);
                assert(et[1 + t] == key[t]);
            }
            assert(s[i + (eq_pos - i)] == tail[eq_pos - i]);
            assert(tail[eq_pos - i] == et[eq_pos - i]);
            assert(s[eq_pos] == et[eq_pos - i]);
            assert(et[eq_pos - i] == '=');
            assert(s[i + (q1 - i)] == tail[q1 - i]);
            assert(tail[q1 - i] == et[q1 - i]);
            assert(s[q1] == et[q1 - i]);
            assert(et[q1 - i] == '"');
            assert(s[i + (close_q - i)] == tail[close_q - i]);
            assert(tail[close_q - i] == et[close_q - i]);
            assert(s[close_q] == et[close_q - i]);
            assert(et[close_q - i] == '"');
            assert(s[i + (brk - i)] == tail[brk - i]);
            assert(tail[brk - i] == et[brk - i]);
            assert(s[brk] == et[brk - i]);
            assert(et[brk - i] == ']');
            // the index branch does not fire
            lemma_scan_digits(s, i + 1);
            let jd = scan_digits(s, i + 1);
            if jd > eq_pos {
                assert(is_digit(s[eq_pos]));
                assert(s[eq_pos] == '=');
                assert(!is_digit('='));
                assert(false);
            }
            if jd > i + 1 && jd < s.len() && s[jd] == ']' {
                if jd == eq_pos {
                    assert(s[jd] == '=');
                    assert(false);
                } else {
                    let m = jd - i - 1;
                    assert(s[jd] == key[m]);
                    assert(key[m] == ']');
                    assert forall|k: int| 0 <= k < m implies is_digit(#[trigger] key[k]) by {
                        assert(s[i + 1 + k] == key[k]);
                        assert(is_digit(s[i + 1 + k]));
                    }
                    assert(key_digits_clash(key));
                    assert(false);
                }
            }
            // the selector branch: key, then the quoted value, then `]`
            assert forall|k: int| i + 1 <= k < eq_pos implies #[trigger] s[k] != '=' by {
                assert(s[k] == key[k - i - 1]);
                if key[k - i - 1] == '=' {
                    assert(key.contains('='));
                }
            }
            lemma_scan_key_exact(s, i + 1, eq_pos);
            assert(sv.len() > 0 && !sv.contains('\\'));
            lemma_escape_scalar_no_bs(sv);
            assert(s.subrange(q1 + 1, q1 + 1 + esc.len()) =~= esc) by {
                assert(forall|t: int|
                    0 <= t < esc.len() ==> s.subrange(q1 + 1, q1 + 1 + esc.len())[t] == s[q1 + 1
                        + t] && tail[q1 + 1 + t - i] == et[q1 + 1 + t - i] && et[q1 + 1 + t - i]
                        == esc[t]);
            }
            lemma_scan_dq_exact(s, q1 + 1, sv);
            assert(parse_string(s, q1) == Some((sv, close_q + 1)));
            assert(s.subrange(i + 1, eq_pos) =~= key);
            assert(parse_selector(s, i) == Some((e, brk + 1)));
            assert(brk + 1 == i + et.len());
    assert(parse_element(s, i) == Some((e, i + crate::element::elem_text(e).len())));
}

/// Parsing at the start of a displayable element's rendering consumes
/// exactly the rendering and yields the element back, whatever follows —
/// provided what follows is empty or another element's rendering.
proof fn lemma_parse_elem(s: Seq<char>, i: int, e: ElementView, rest: Seq<char>)
    requires
        displayable_elem(e),
        0 <= i <= s.len(),
        s.subrange(i, s.len() as int) == crate::element::elem_text(e) + rest,
        rest.len() == 0 || rest[0] == '.' || rest[0] == '[',
    ensures
        parse_element(s, i) == Some((e, i + crate::element::elem_text(e).len())),
{
    match e {
        ElementView::Field(_) => {
            lemma_parse_elem_field(s, i, e, rest);
        },
        ElementView::Select(_, _) => {
            lemma_parse_elem_select(s, i, e, rest);
        },
        ElementView::Index(_) => {
            assert(false);
        },
    }
}

} // verus!

verus! {

#[verifier::rlimit(60)]
proof fn lemma_parse_path_from_displayable(p: Seq<ElementView>, k: int, s: Seq<char>)
    requires
        displayable(p),
        0 <= k <= p.len(),
        s == crate::element::path_text(p),
    ensures
        parse_path_from(s, crate::element::path_text(p.take(k)).len() as int) == Some(p.skip(k)),
    decreases p.len() - k,
{
    let a = crate::element::path_text(p.take(k));
    let b = crate::element::path_text(p.skip(k));
    let i = a.len() as int;
    assert(p.take(k) + p.skip(k) =~= p);
    lemma_path_text_concat(p.take(k), p.skip(k));
    assert(s == a + b);
    assert(s.len() == a.len() + b.len());
    assert(s.subrange(i, s.len() as int) =~= b) by {
        assert(forall|t: int|
            0 <= t < b.len() ==> s.subrange(i, s.len() as int)[t] == s[i + t] && s[i + t] == (a
                + b)[i + t] && (a + b)[i + t] == b[t]);
    }
    if k == p.len() {
        assert(p.skip(k) =~= Seq::<ElementView>::empty());
        assert(b =~= Seq::<char>::empty());
        assert(i == s.len());
    } else {
        let e = p[k];
        assert(displayable_elem(e));
        lemma_path_text_first(p.skip(k));
        assert(p.skip(k)[0] == e);
        assert(p.skip(k).drop_first() =~= p.skip(k + 1));
        let restt = crate::element::path_text(p.skip(k + 1));
        assert(b == crate::element::elem_text(e) + restt);
        if k + 1 < p.len() {
            lemma_path_text_first(p.skip(k + 1));
            lemma_elem_text_first(p[k + 1]);
            assert(p.skip(k + 1)[0] == p[k + 1]);
            assert(p.skip(k + 1).drop_first() =~= p.skip(k + 2));
            assert(restt == crate::element::elem_text(p[k + 1]) + crate::element::path_text(
                p.skip(k + 2),
            ));
            assert(restt[0] == crate::element::elem_text(p[k + 1])[0]);
            assert(restt[0] == '.' || restt[0] == '[');
        } else {
            assert(p.skip(k + 1) =~= Seq::<ElementView>::empty());
            assert(restt.len() == 0);
        }
        assert(s.subrange(i, s.len() as int) == crate::element::elem_text(e) + restt);
        lemma_parse_elem(s, i, e, restt);
        lemma_elem_text_first(e);
        let n = i + crate::element::elem_text(e).len();
        assert(p.take(k + 1).drop_last() =~= p.take(k));
        assert(p.take(k + 1).last() == e);
        assert(crate::element::path_text(p.take(k + 1)) == a + crate::element::elem_text(e));
        assert(crate::element::path_text(p.take(k + 1)).len() as int == n);
        lemma_parse_path_from_displayable(p, k + 1, s);
        lemma_path_text_concat(p.take(k + 1), p.skip(k + 1));
        assert(p.take(k + 1) + p.skip(k + 1) =~= p);
        assert(n + crate::element::path_text(p.skip(k + 1)).len() == s.len());
        assert(i < n <= s.len());
        assert(parse_path_from(s, n) == Some(p.skip(k + 1)));
        assert(parse_path_from(s, i) == Some(seq![e] + p.skip(k + 1)));
        assert(seq![e] + p.skip(k + 1) =~= p.skip(k));
    }
}

/// Round trip of rendering and parsing: any non-empty path of displayable
/// field and selector elements parses back, from its own rendering, to
/// exactly itself. Index elements are excluded: their rendering omits the
/// brackets the parser requires, a deliberate asymmetry this library keeps.
pub proof fn lemma_display_parse_roundtrip(p: Seq<ElementView>)
    requires
        p.len() > 0,
        displayable(p),
    ensures
        spec_parse(crate::element::path_text(p)) == Some(p),
{
    let s = crate::element::path_text(p);
    lemma_parse_path_from_displayable(p, 0, s);
    assert(p.take(0) =~= Seq::<ElementView>::empty());
    assert(crate::element::path_text(p.take(0)) =~= Seq::<char>::empty());
    assert(p.skip(0) =~= p);
    lemma_path_text_first(p);
    lemma_elem_text_first(p[0]);
    assert(s.len() > 0);
}

} // verus!
