//! Parser for the apiserver's free-text apply-conflict message.
//!
//! ```text
//! message  := prelude " " conflict ("\n" conflict)*
//! prelude  := "Apply failed with " digit+ " conflict" "s"? ":"
//! conflict := "conflict" "s"? " with \"" [^"]+ "\"" (" using " ver)? ":"
//!               ( "\n" ("- " path)*  |  " " path )
//! ver      := [a-z0-9/.]+
//! path     := [^\n]+   parsed by the field-path grammar
//! ```
//!
//! A conflict's field references are fed to the field-path parser; a
//! malformed one fails the whole message.

use vstd::prelude::*;
use crate::element::{pview, ElementView, PathBuf};
use crate::parse::{make_err, parse, scan_digits, spec_parse, ParseError};
use crate::strutil::str_to_chars;

verus! {

/// One decoded conflict block: the owning manager and the conflicting paths.
#[derive(Debug, PartialEq)]
pub struct Conflict(pub String, pub Vec<PathBuf>);

/// Ghost model of a conflict block.
pub struct ConflictView {
    pub manager: Seq<char>,
    pub paths: Seq<Seq<ElementView>>,
}

pub open spec fn paths_view(v: Seq<PathBuf>) -> Seq<Seq<ElementView>> {
    v.map_values(|pb: PathBuf| pview(pb.0@))
}

impl View for Conflict {
    type V = ConflictView;

    open spec fn view(&self) -> ConflictView {
        ConflictView { manager: self.0@, paths: paths_view(self.1@) }
    }
}

pub open spec fn conflicts_view(v: Seq<Conflict>) -> Seq<ConflictView> {
    v.map_values(|c: Conflict| c@)
}

/// Whether `lit` occurs in `s` starting at `i`.
pub open spec fn match_lit(s: Seq<char>, i: int, lit: Seq<char>) -> bool {
    0 <= i && i + lit.len() <= s.len() && s.subrange(i, i + lit.len()) == lit
}

pub open spec fn scan_line(s: Seq<char>, i: int) -> int
    decreases s.len() - i,
{
    if 0 <= i < s.len() && s[i] != '\n' {
        scan_line(s, i + 1)
    } else {
        i
    }
}

pub open spec fn scan_quote(s: Seq<char>, i: int) -> int
    decreases s.len() - i,
{
    if 0 <= i < s.len() && s[i] != '"' {
        scan_quote(s, i + 1)
    } else {
        i
    }
}

/// A character of a group/version token.
pub open spec fn is_ver(c: char) -> bool {
    (97 <= c as u32 <= 122) || (48 <= c as u32 <= 57) || c == '/' || c == '.'
}

pub open spec fn scan_ver(s: Seq<char>, i: int) -> int
    decreases s.len() - i,
{
    if 0 <= i < s.len() && is_ver(s[i]) {
        scan_ver(s, i + 1)
    } else {
        i
    }
}

/// The position after the message prelude, if it matches.
pub open spec fn parse_prelude(s: Seq<char>) -> Option<int> {
    let l1 = "Apply failed with "@;
    if match_lit(s, 0, l1) {
        let d0 = l1.len() as int;
        let j = scan_digits(s, d0);
        if j > d0 && match_lit(s, j, " conflict"@) {
            let k = j + " conflict"@.len();
            let k2 = if match_lit(s, k, "s"@) {
                k + 1
            } else {
                k
            };
            if match_lit(s, k2, ":"@) {
                Some(k2 + 1)
            } else {
                None
            }
        } else {
            None
        }
    } else {
        None
    }
}

/// The optional `" using " ver` clause: the position after it, or `i`
/// unchanged when it is absent.
pub open spec fn opt_using(s: Seq<char>, i: int) -> int {
    if match_lit(s, i, " using "@) {
        let v0 = i + " using "@.len();
        let j = scan_ver(s, v0);
        if j > v0 {
            j
        } else {
            i
        }
    } else {
        i
    }
}

/// The manager prelude of one conflict block: the manager name and the
/// position after the closing `:`.
pub open spec fn parse_manager(s: Seq<char>, i: int) -> Option<(Seq<char>, int)> {
    if match_lit(s, i, "conflict"@) {
        let j0 = i + "conflict"@.len();
        let j = if match_lit(s, j0, "s"@) {
            j0 + 1
        } else {
            j0
        };
        if match_lit(s, j, " with \""@) {
            let k0 = j + " with \""@.len();
            let k = scan_quote(s, k0);
            if k > k0 && k < s.len() && s[k] == '"' {
                let m1 = opt_using(s, k + 1);
                if match_lit(s, m1, ":"@) {
                    Some((s.subrange(k0, k), m1 + 1))
                } else {
                    None
                }
            } else {
                None
            }
        } else {
            None
        }
    } else {
        None
    }
}

/// A `- `-prefixed path list, possibly empty; `None` is a malformed embedded
/// path, which fails the whole message.
pub open spec fn parse_path_list(s: Seq<char>, i: int) -> Option<(Seq<Seq<ElementView>>, int)>
    decreases s.len() - i,
{
    if !match_lit(s, i, "- "@) {
        Some((Seq::empty(), i))
    } else {
        let f0 = i + 2;
        let j = scan_line(s, f0);
        if j <= f0 {
            Some((Seq::empty(), i))
        } else {
            match spec_parse(s.subrange(f0, j)) {
                None => None,
                Some(path) => {
                    if j < s.len() && s[j] == '\n' && i < j {
                        match parse_path_list(s, j + 1) {
                            None => None,
                            Some((rest, p2)) => if rest.len() == 0 {
                                Some((seq![path], j))
                            } else {
                                Some((seq![path] + rest, p2))
                            },
                        }
                    } else {
                        Some((seq![path], j))
                    }
                },
            }
        }
    }
}

/// The result of trying one conflict block.
pub enum ConflictStep {
    Match(ConflictView, int),
    Miss,
    Abort,
}

pub open spec fn parse_conflict(s: Seq<char>, i: int) -> ConflictStep {
    match parse_manager(s, i) {
        None => ConflictStep::Miss,
        Some((mgr, m)) => {
            if m < s.len() && s[m] == '\n' {
                match parse_path_list(s, m + 1) {
                    None => ConflictStep::Abort,
                    Some((paths, p)) => ConflictStep::Match(
                        ConflictView { manager: mgr, paths },
                        if paths.len() == 0 {
                            m + 1
                        } else {
                            p
                        },
                    ),
                }
            } else if m < s.len() && s[m] == ' ' {
                let f0 = m + 1;
                let j = scan_line(s, f0);
                if j > f0 {
                    match spec_parse(s.subrange(f0, j)) {
                        None => ConflictStep::Abort,
                        Some(path) => ConflictStep::Match(
                            ConflictView { manager: mgr, paths: seq![path] },
                            j,
                        ),
                    }
                } else {
                    ConflictStep::Miss
                }
            } else {
                ConflictStep::Miss
            }
        },
    }
}

/// A newline-separated run of conflict blocks, possibly empty.
pub open spec fn parse_conflicts(s: Seq<char>, i: int) -> Option<(Seq<ConflictView>, int)>
    decreases s.len() - i,
{
    match parse_conflict(s, i) {
        ConflictStep::Miss => Some((Seq::empty(), i)),
        ConflictStep::Abort => None,
        ConflictStep::Match(c, p) => {
            if !(i < p <= s.len()) {
                None
            } else if p < s.len() && s[p] == '\n' {
                match parse_conflicts(s, p + 1) {
                    None => None,
                    Some((rest, p2)) => if rest.len() == 0 {
                        Some((seq![c], p))
                    } else {
                        Some((seq![c] + rest, p2))
                    },
                }
            } else {
                Some((seq![c], p))
            }
        },
    }
}

/// What the message grammar derives from `s`: the prelude, a space, the
/// conflict blocks, consuming all of `s`.
pub open spec fn spec_parse_message(s: Seq<char>) -> Option<Seq<ConflictView>> {
    match parse_prelude(s) {
        None => None,
        Some(p0) => {
            if match_lit(s, p0, " "@) {
                match parse_conflicts(s, p0 + 1) {
                    None => None,
                    Some((cs, p)) => if p == s.len() {
                        Some(cs)
                    } else {
                        None
                    },
                }
            } else {
                None
            }
        },
    }
}

} // verus!

verus! {

#[verifier::loop_isolation(false)]
fn exec_match_lit(chars: &Vec<char>, i: usize, lit: &str) -> (r: bool)
    ensures
        r == match_lit(chars@, i as int, lit@),
{
    let total = chars.len();
    let lc = str_to_chars(lit);
    if i > chars.len() || lc.len() > chars.len() - i {
        return false;
    }
    let mut k: usize = 0;
    while k < lc.len()
        invariant
            0 <= k <= lc@.len(),
            i + lc@.len() <= chars@.len(),
            lc@ == lit@,
            forall|t: int| 0 <= t < k ==> chars@[i + t] == lit@[t],
        decreases lc@.len() - k,
    {
        if chars[i + k] != lc[k] {
            proof {
                assert(chars@.subrange(i as int, i + lit@.len())[k as int] == chars@[i + k]);
            }
            return false;
        }
        k = k + 1;
    }
    proof {
        assert(chars@.subrange(i as int, i + lit@.len()) =~= lit@);
    }
    true
}

fn exec_scan_line(chars: &Vec<char>, i: usize) -> (j: usize)
    requires
        i <= chars@.len(),
    ensures
        j as int == scan_line(chars@, i as int),
        i <= j <= chars@.len(),
{
    let mut j = i;
    while j < chars.len() && chars[j] != '\n'
        invariant
            i <= j <= chars@.len(),
            scan_line(chars@, i as int) == scan_line(chars@, j as int),
        decreases chars@.len() - j,
    {
        j = j + 1;
    }
    j
}

fn exec_scan_quote(chars: &Vec<char>, i: usize) -> (j: usize)
    requires
        i <= chars@.len(),
    ensures
        j as int == scan_quote(chars@, i as int),
        i <= j <= chars@.len(),
{
    let mut j = i;
    while j < chars.len() && chars[j] != '"'
        invariant
            i <= j <= chars@.len(),
            scan_quote(chars@, i as int) == scan_quote(chars@, j as int),
        decreases chars@.len() - j,
    {
        j = j + 1;
    }
    j
}

fn is_ver_exec(c: char) -> (r: bool)
    ensures
        r == is_ver(c),
{
    let u = c as u32;
    (97 <= u && u <= 122) || (48 <= u && u <= 57) || c == '/' || c == '.'
}

fn exec_scan_ver(chars: &Vec<char>, i: usize) -> (j: usize)
    requires
        i <= chars@.len(),
    ensures
        j as int == scan_ver(chars@, i as int),
        i <= j <= chars@.len(),
{
    let mut j = i;
    while j < chars.len() && is_ver_exec(chars[j])
        invariant
            i <= j <= chars@.len(),
            scan_ver(chars@, i as int) == scan_ver(chars@, j as int),
        decreases chars@.len() - j,
    {
        j = j + 1;
    }
    j
}

fn is_digit_char(c: char) -> (r: bool)
    ensures
        r == crate::parse::is_digit(c),
{
    let u = c as u32;
    48 <= u && u <= 57
}

fn exec_scan_digits2(chars: &Vec<char>, i: usize) -> (j: usize)
    requires
        i <= chars@.len(),
    ensures
        j as int == scan_digits(chars@, i as int),
        i <= j <= chars@.len(),
{
    let mut j = i;
    while j < chars.len() && is_digit_char(chars[j])
        invariant
            i <= j <= chars@.len(),
            scan_digits(chars@, i as int) == scan_digits(chars@, j as int),
        decreases chars@.len() - j,
    {
        j = j + 1;
    }
    j
}

fn exec_parse_prelude(chars: &Vec<char>) -> (r: Option<usize>)
    ensures
        match r {
            Some(p) => parse_prelude(chars@) == Some(p as int) && p <= chars@.len(),
            None => parse_prelude(chars@) is None,
        },
{
    let total = chars.len();
    proof {
        reveal_strlit("Apply failed with ");
        reveal_strlit(" conflict");
        reveal_strlit("s");
        reveal_strlit(":");
    }
    if !exec_match_lit(chars, 0, "Apply failed with ") {
        return None;
    }
    let d0 = "Apply failed with ".unicode_len();
    let j = exec_scan_digits2(chars, d0);
    if j <= d0 {
        return None;
    }
    if !exec_match_lit(chars, j, " conflict") {
        return None;
    }
    let k = j + " conflict".unicode_len();
    let k2 = if exec_match_lit(chars, k, "s") {
        k + 1
    } else {
        k
    };
    if exec_match_lit(chars, k2, ":") {
        Some(k2 + 1)
    } else {
        None
    }
}

fn exec_opt_using(chars: &Vec<char>, i: usize) -> (r: usize)
    requires
        i <= chars@.len(),
    ensures
        r as int == opt_using(chars@, i as int),
        i <= r <= chars@.len(),
{
    let total = chars.len();
    proof {
        reveal_strlit(" using ");
    }
    if exec_match_lit(chars, i, " using ") {
        let v0 = i + " using ".unicode_len();
        let j = exec_scan_ver(chars, v0);
        if j > v0 {
            j
        } else {
            i
        }
    } else {
        i
    }
}

fn exec_parse_manager(chars: &Vec<char>, i: usize) -> (r: Option<(String, usize)>)
    requires
        i <= chars@.len(),
    ensures
        match r {
            Some(p) => parse_manager(chars@, i as int) == Some((p.0@, p.1 as int)) && i < p.1
                <= chars@.len(),
            None => parse_manager(chars@, i as int) is None,
        },
{
    let total = chars.len();
    proof {
        reveal_strlit("conflict");
        reveal_strlit("s");
        reveal_strlit(" with \"");
        reveal_strlit(":");
    }
    if !exec_match_lit(chars, i, "conflict") {
        return None;
    }
    let j0 = i + "conflict".unicode_len();
    let j = if exec_match_lit(chars, j0, "s") {
        j0 + 1
    } else {
        j0
    };
    if !exec_match_lit(chars, j, " with \"") {
        return None;
    }
    let k0 = j + " with \"".unicode_len();
    let k = exec_scan_quote(chars, k0);
    if k > k0 && k < chars.len() && chars[k] == '"' {
        let m1 = exec_opt_using(chars, k + 1);
        if exec_match_lit(chars, m1, ":") {
            Some((crate::parse::chars_to_string(chars, k0, k), m1 + 1))
        } else {
            None
        }
    } else {
        None
    }
}

fn exec_path_list(chars: &Vec<char>, i: usize) -> (r: Result<(Vec<PathBuf>, usize), ParseError>)
    requires
        i <= chars@.len(),
    ensures
        match r {
            Ok(p) => parse_path_list(chars@, i as int) == Some((paths_view(p.0@), p.1 as int))
                && i <= p.1 <= chars@.len(),
            Err(_) => parse_path_list(chars@, i as int) is None,
        },
    decreases chars@.len() - i,
{
    let total = chars.len();
    let ghost s = chars@;
    proof {
        reveal_strlit("- ");
    }
    if !exec_match_lit(chars, i, "- ") {
        proof {
            assert(paths_view(Seq::<PathBuf>::empty()) =~= Seq::<Seq<ElementView>>::empty());
        }
        return Ok((Vec::new(), i));
    }
    let f0 = i + 2;
    let j = exec_scan_line(chars, f0);
    if j <= f0 {
        proof {
            assert(paths_view(Seq::<PathBuf>::empty()) =~= Seq::<Seq<ElementView>>::empty());
        }
        return Ok((Vec::new(), i));
    }
    let text = crate::parse::chars_to_string(chars, f0, j);
    match parse(text.as_str()) {
        Err(_) => Err(make_err(chars, f0)),
        Ok(pb) => {
            if j < chars.len() && chars[j] == '\n' && i < j {
                match exec_path_list(chars, j + 1) {
                    Err(e) => Err(e),
                    Ok((rest, p2)) => {
                        if rest.len() == 0 {
                            let mut out: Vec<PathBuf> = Vec::new();
                            out.push(pb);
                            proof {
                                assert(paths_view(out@) =~= seq![pview(out@[0].0@)]);
                            }
                            Ok((out, j))
                        } else {
                            let mut out: Vec<PathBuf> = Vec::new();
                            out.push(pb);
                            let mut rest = rest;
                            let ghost rest0 = rest@;
                            out.append(&mut rest);
                            proof {
                                assert(out@.drop_first() =~= rest0);
                                assert(paths_view(out@) =~= seq![pview(out@[0].0@)] + paths_view(
                                    rest0,
                                ));
                            }
                            Ok((out, p2))
                        }
                    },
                }
            } else {
                let mut out: Vec<PathBuf> = Vec::new();
                out.push(pb);
                proof {
                    assert(paths_view(out@) =~= seq![pview(out@[0].0@)]);
                }
                Ok((out, j))
            }
        },
    }
}

fn exec_parse_conflict(chars: &Vec<char>, i: usize) -> (r: Result<
    Option<(Conflict, usize)>,
    ParseError,
>)
    requires
        i <= chars@.len(),
    ensures
        match r {
            Ok(Some(p)) => parse_conflict(chars@, i as int) matches ConflictStep::Match(cv, pos)
                && cv == p.0@ && pos == p.1 as int && i < p.1 <= chars@.len(),
            Ok(None) => parse_conflict(chars@, i as int) is Miss,
            Err(_) => parse_conflict(chars@, i as int) is Abort,
        },
    decreases chars@.len() - i,
{
    let ghost s = chars@;
    match exec_parse_manager(chars, i) {
        None => Ok(None),
        Some((mgr, m)) => {
            if m < chars.len() && chars[m] == '\n' {
                match exec_path_list(chars, m + 1) {
                    Err(e) => Err(e),
                    Ok((paths, p)) => {
                        let pos = if paths.len() == 0 {
                            m + 1
                        } else {
                            p
                        };
                        proof {
                            assert(paths_view(paths@).len() == paths@.len());
                        }
                        Ok(Some((Conflict(mgr, paths), pos)))
                    },
                }
            } else if m < chars.len() && chars[m] == ' ' {
                let f0 = m + 1;
                let j = exec_scan_line(chars, f0);
                if j > f0 {
                    let text = crate::parse::chars_to_string(chars, f0, j);
                    match parse(text.as_str()) {
                        Err(_) => Err(make_err(chars, f0)),
                        Ok(pb) => {
                            let mut paths: Vec<PathBuf> = Vec::new();
                            paths.push(pb);
                            proof {
                                assert(paths_view(paths@) =~= seq![pview(paths@[0].0@)]);
                            }
                            Ok(Some((Conflict(mgr, paths), j)))
                        },
                    }
                } else {
                    Ok(None)
                }
            } else {
                Ok(None)
            }
        },
    }
}

fn exec_parse_conflicts(chars: &Vec<char>, i: usize) -> (r: Result<
    (Vec<Conflict>, usize),
    ParseError,
>)
    requires
        i <= chars@.len(),
    ensures
        match r {
            Ok(p) => parse_conflicts(chars@, i as int) == Some((conflicts_view(p.0@), p.1 as int))
                && i <= p.1 <= chars@.len(),
            Err(_) => parse_conflicts(chars@, i as int) is None,
        },
    decreases chars@.len() - i,
{
    match exec_parse_conflict(chars, i) {
        Err(e) => Err(e),
        Ok(None) => {
            proof {
                assert(conflicts_view(Seq::<Conflict>::empty()) =~= Seq::<ConflictView>::empty());
            }
            Ok((Vec::new(), i))
        },
        Ok(Some((c, p))) => {
            if p < chars.len() && chars[p] == '\n' {
                match exec_parse_conflicts(chars, p + 1) {
                    Err(e) => Err(e),
                    Ok((rest, p2)) => {
                        if rest.len() == 0 {
                            let mut out: Vec<Conflict> = Vec::new();
                            out.push(c);
                            proof {
                                assert(conflicts_view(out@) =~= seq![out@[0]@]);
                            }
                            Ok((out, p))
                        } else {
                            let mut out: Vec<Conflict> = Vec::new();
                            out.push(c);
                            let mut rest = rest;
                            let ghost rest0 = rest@;
                            out.append(&mut rest);
                            proof {
                                assert(out@.drop_first() =~= rest0);
                                assert(conflicts_view(out@) =~= seq![out@[0]@] + conflicts_view(
                                    rest0,
                                ));
                            }
                            Ok((out, p2))
                        }
                    },
                }
            } else {
                let mut out: Vec<Conflict> = Vec::new();
                out.push(c);
                proof {
                    assert(conflicts_view(out@) =~= seq![out@[0]@]);
                }
                Ok((out, p))
            }
        },
    }
}

/// Parse an apiserver conflict message into its conflict blocks. Returns
/// them exactly when the message grammar derives them from the whole input.
pub fn parse_message(input: &str) -> (r: Result<Vec<Conflict>, ParseError>)
    ensures
        match r {
            Ok(cs) => spec_parse_message(input@) == Some(conflicts_view(cs@)),
            Err(_) => spec_parse_message(input@) is None,
        },
{
    let chars = str_to_chars(input);
    proof {
        reveal_strlit(" ");
    }
    match exec_parse_prelude(&chars) {
        None => Err(ParseError { line: 1, column: 1 }),
        Some(p0) => {
            if !exec_match_lit(&chars, p0, " ") {
                return Err(make_err(&chars, p0));
            }
            match exec_parse_conflicts(&chars, p0 + 1) {
                Err(e) => Err(e),
                Ok((cs, p)) => {
                    if p == chars.len() {
                        Ok(cs)
                    } else {
                        Err(make_err(&chars, p))
                    }
                },
            }
        },
    }
}

} // verus!
