//! The two grammars of the tool, as hand-written recursive-descent
//! parsers over bytes, with the grammar itself stated as spec
//! functions.
//!
//! Section grammar:
//! ```text
//! sections ::= section (" " section)*
//! section  ::= "[" header "]" "(" number ( ".." number )? ")"
//! header   ::= alnum+
//! number   ::= digit+           (must fit in a u32)
//! ```
//! URL grammar:
//! ```text
//! url    ::= scheme "://" ("www.")? name ".com" rest?
//! scheme ::= "http" | "https"
//! name   ::= alnum+
//! ```

use vstd::prelude::*;
use vstd::string::StringSliceAdditionalSpecFns;
use crate::models::{domain_of, GrammarError, LyricSection, RangeOrNumber, SupportedDomain};
use crate::text::chars_of_ascii;

verus! {

/// ASCII decimal digit.
pub open spec fn is_digit(c: u8) -> bool {
    ('0' as u8) <= c <= ('9' as u8)
}

/// ASCII letter or digit.
pub open spec fn is_alnum(c: u8) -> bool {
    is_digit(c) || ('a' as u8) <= c <= ('z' as u8) || ('A' as u8) <= c <= ('Z' as u8)
}

/// Index just past the maximal run of digits starting at `i`.
pub open spec fn digit_run_end(s: Seq<u8>, i: int) -> int
    decreases s.len() - i when 0 <= i <= s.len()
{
    if i < s.len() && is_digit(s[i]) {
        digit_run_end(s, i + 1)
    } else {
        i
    }
}

/// Index just past the maximal run of alphanumeric bytes starting at `i`.
pub open spec fn alnum_run_end(s: Seq<u8>, i: int) -> int
    decreases s.len() - i when 0 <= i <= s.len()
{
    if i < s.len() && is_alnum(s[i]) {
        alnum_run_end(s, i + 1)
    } else {
        i
    }
}

/// The value of a digit string read as a decimal number.
pub open spec fn digits_val(s: Seq<u8>) -> int
    decreases s.len()
{
    if s.len() == 0 {
        0
    } else {
        10 * digits_val(s.drop_last()) + (s.last() - ('0' as u8))
    }
}

/// Parses `digit+` at position `i`, yielding the value and the
/// position just past the digits.  Fails when no digit stands at `i`
/// or the value does not fit in a `u32`.
pub open spec fn spec_parse_num(s: Seq<u8>, i: int) -> Option<(u32, int)> {
    let e = digit_run_end(s, i);
    if e == i {
        None
    } else {
        let v = digits_val(s.subrange(i, e));
        if v > u32::MAX {
            None
        } else {
            Some((v as u32, e))
        }
    }
}

/// Parses `"[" alnum+ "]"` at the start of `s`, yielding the header
/// bytes and the position just past the `]`.
pub open spec fn spec_parse_header(s: Seq<u8>) -> Option<(Seq<u8>, int)> {
    if s.len() >= 1 && s[0] == ('[' as u8) {
        let e = alnum_run_end(s, 1);
        if e == 1 {
            None
        } else if e < s.len() && s[e] == (']' as u8) {
            Some((s.subrange(1, e), e + 1))
        } else {
            None
        }
    } else {
        None
    }
}

/// Parses `"(" number ( ".." number )? ")"` at position `i`, yielding
/// the selector and the position just past the `)`.
pub open spec fn spec_parse_selector(s: Seq<u8>, i: int) -> Option<(RangeOrNumber, int)> {
    if 0 <= i && i < s.len() && s[i] == ('(' as u8) {
        match spec_parse_num(s, i + 1) {
            None => None,
            Some((n, j)) => {
                if j + 1 < s.len() && s[j] == ('.' as u8) && s[j + 1] == ('.' as u8) {
                    match spec_parse_num(s, j + 2) {
                        None => None,
                        Some((m, k)) => {
                            if k < s.len() && s[k] == (')' as u8) {
                                Some((RangeOrNumber::Range(n, m), k + 1))
                            } else {
                                None
                            }
                        },
                    }
                } else if j < s.len() && s[j] == (')' as u8) {
                    Some((RangeOrNumber::Number(n), j + 1))
                } else {
                    None
                }
            },
        }
    } else {
        None
    }
}

/// Parses one whole section token at the start of `s`: header, then
/// selector, with no intervening bytes.  Yields the header bytes, the
/// selector, and the position just past the token.
pub open spec fn spec_parse_section(s: Seq<u8>) -> Option<(Seq<u8>, RangeOrNumber, int)> {
    match spec_parse_header(s) {
        None => None,
        Some((h, i)) => match spec_parse_selector(s, i) {
            None => None,
            Some((w, e)) => Some((h, w, e)),
        },
    }
}

/// A digit string's value is never negative.
proof fn lemma_digits_val_nonneg(s: Seq<u8>, i: int, j: int)
    requires
        0 <= i <= j <= s.len(),
        forall|k: int| i <= k < j ==> is_digit(#[trigger] s[k]),
    ensures
        digits_val(s.subrange(i, j)) >= 0,
    decreases j - i,
{
    if i < j {
        lemma_digits_val_nonneg(s, i, j - 1);
        assert(s.subrange(i, j).drop_last() =~= s.subrange(i, j - 1));
    } else {
        assert(s.subrange(i, i) =~= Seq::<u8>::empty());
    }
}

/// A digit string's value only grows as more digits follow it.
proof fn lemma_digits_val_grows(s: Seq<u8>, i: int, j: int, e: int)
    requires
        0 <= i <= j <= e <= s.len(),
        forall|k: int| i <= k < e ==> is_digit(#[trigger] s[k]),
    ensures
        digits_val(s.subrange(i, e)) >= digits_val(s.subrange(i, j)),
        digits_val(s.subrange(i, j)) >= 0,
    decreases e - j,
{
    lemma_digits_val_nonneg(s, i, j);
    if j < e {
        lemma_digits_val_grows(s, i, j + 1, e);
        assert(s.subrange(i, j + 1).drop_last() =~= s.subrange(i, j));
    }
}

/// Scans the maximal digit run starting at `from`.
fn scan_digits(s: &[u8], from: usize) -> (e: usize)
    requires
        from <= s@.len(),
    ensures
        e == digit_run_end(s@, from as int),
        from <= e <= s@.len(),
        forall|k: int| from <= k < e ==> is_digit(#[trigger] s@[k]),
    decreases s@.len() - from,
{
    if from < s.len() && ('0' as u8) <= s[from] && s[from] <= ('9' as u8) {
        scan_digits(s, from + 1)
    } else {
        from
    }
}

/// Scans the maximal alphanumeric run starting at `from`.
fn scan_alnum(s: &[u8], from: usize) -> (e: usize)
    requires
        from <= s@.len(),
    ensures
        e == alnum_run_end(s@, from as int),
        from <= e <= s@.len(),
        forall|k: int| from <= k < e ==> is_alnum(#[trigger] s@[k]),
    decreases s@.len() - from,
{
    if from < s.len()
        && (('0' as u8) <= s[from] && s[from] <= ('9' as u8)
            || ('a' as u8) <= s[from] && s[from] <= ('z' as u8)
            || ('A' as u8) <= s[from] && s[from] <= ('Z' as u8))
    {
        scan_alnum(s, from + 1)
    } else {
        from
    }
}

/// Parses `digit+` at `from` into a `u32`.
fn parse_num(s: &[u8], from: usize) -> (r: Option<(u32, usize)>)
    requires
        from <= s@.len(),
    ensures
        match r {
            Some(p) => spec_parse_num(s@, from as int) == Some((p.0, p.1 as int))
                && from <= p.1 <= s@.len(),
            None => spec_parse_num(s@, from as int) is None,
        },
{
    let e = scan_digits(s, from);
    if e == from {
        return None;
    }
    let mut acc: u32 = 0;
    let mut j: usize = from;
    while j < e
        invariant
            from <= j <= e <= s@.len(),
            e == digit_run_end(s@, from as int),
            forall|k: int| from <= k < e ==> is_digit(#[trigger] s@[k]),
            acc == digits_val(s@.subrange(from as int, j as int)),
        decreases e - j,
    {
        let d: u32 = (s[j] - ('0' as u8)) as u32;
        proof {
            assert(s@.subrange(from as int, j + 1).drop_last() =~= s@.subrange(
                from as int,
                j as int,
            ));
        }
        let shifted = match acc.checked_mul(10) {
            Some(x) => x,
            None => {
                proof {
                    lemma_digits_val_grows(s@, from as int, j + 1, e as int);
                }
                return None;
            },
        };
        let next = match shifted.checked_add(d) {
            Some(x) => x,
            None => {
                proof {
                    lemma_digits_val_grows(s@, from as int, j + 1, e as int);
                }
                return None;
            },
        };
        acc = next;
        j += 1;
    }
    proof {
        lemma_digits_val_grows(s@, from as int, from as int, e as int);
    }
    Some((acc, e))
}

/// The error value for a fragment that breaks the grammar.
fn grammar_err(s: &[u8]) -> (r: GrammarError)
    ensures
        r.fragment@ == s@,
{
    GrammarError { fragment: vstd::slice::slice_to_vec(s) }
}

/// Parses one section token at the start of `s`.
///
/// On success returns the parsed section together with how many bytes
/// of `s` the token occupied; the caller decides what to do with the
/// unconsumed remainder.  On failure returns a `GrammarError` holding
/// the offending input.
pub fn create_section(s: &[u8]) -> (r: Result<(LyricSection, usize), GrammarError>)
    ensures
        match spec_parse_section(s@) {
            Some(t) => r matches Ok(p) && p.0.header@ == chars_of_ascii(t.0) && p.0.words == t.1
                && p.1 == t.2,
            None => r matches Err(e) && e.fragment@ == s@,
        },
{
    if s.len() < 1 || s[0] != ('[' as u8) {
        return Err(grammar_err(s));
    }
    let header_end = scan_alnum(s, 1);
    if header_end == 1 {
        return Err(grammar_err(s));
    }
    if header_end >= s.len() || s[header_end] != (']' as u8) {
        return Err(grammar_err(s));
    }
    let mut header_bytes: Vec<u8> = Vec::new();
    let mut x: usize = 1;
    while x < header_end
        invariant
            1 <= x <= header_end <= s@.len(),
            forall|k: int| 1 <= k < header_end ==> is_alnum(#[trigger] s@[k]),
            header_bytes@ =~= s@.subrange(1, x as int),
        decreases header_end - x,
    {
        header_bytes.push(s[x]);
        proof {
            assert(header_bytes@ =~= s@.subrange(1, x + 1));
        }
        x += 1;
    }
    let header = crate::text::string_from_ascii(header_bytes);
    let sel_at = header_end + 1;
    if sel_at >= s.len() || s[sel_at] != ('(' as u8) {
        return Err(grammar_err(s));
    }
    let (low, after_low) = match parse_num(s, sel_at + 1) {
        Some(p) => p,
        None => {
            return Err(grammar_err(s));
        },
    };
    if after_low < s.len() && s[after_low] == ('.' as u8) && after_low + 1 < s.len()
        && s[after_low + 1] == ('.' as u8) {
        let (high, after_high) = match parse_num(s, after_low + 2) {
            Some(p) => p,
            None => {
                return Err(grammar_err(s));
            },
        };
        if after_high < s.len() && s[after_high] == (')' as u8) {
            Ok((LyricSection::new(header, RangeOrNumber::Range(low, high)), after_high + 1))
        } else {
            Err(grammar_err(s))
        }
    } else if after_low < s.len() && s[after_low] == (')' as u8) {
        Ok((LyricSection::new(header, RangeOrNumber::Number(low)), after_low + 1))
    } else {
        Err(grammar_err(s))
    }
}

/// ASCII whitespace.
pub open spec fn is_ws(c: u8) -> bool {
    c == (' ' as u8) || 9 <= c <= 13
}

/// Index of the first non-whitespace byte at or after `i`.
pub open spec fn front_ws_end(s: Seq<u8>, i: int) -> int
    decreases s.len() - i when 0 <= i <= s.len()
{
    if i < s.len() && is_ws(s[i]) {
        front_ws_end(s, i + 1)
    } else {
        i
    }
}

/// Index just past the last non-whitespace byte before `i`.
pub open spec fn back_ws_start(s: Seq<u8>, i: int) -> int
    decreases i when 0 <= i <= s.len()
{
    if i > 0 && is_ws(s[i - 1]) {
        back_ws_start(s, i - 1)
    } else {
        i
    }
}

/// The input without leading and trailing ASCII whitespace.
pub open spec fn spec_trim(s: Seq<u8>) -> Seq<u8> {
    let lo = front_ws_end(s, 0);
    let hi = back_ws_start(s, s.len() as int);
    if 0 <= lo <= hi <= s.len() {
        s.subrange(lo, hi)
    } else {
        Seq::empty()
    }
}

/// Index of the first space at or after `i`, or the input's length.
pub open spec fn token_end(s: Seq<u8>, i: int) -> int
    decreases s.len() - i when 0 <= i <= s.len()
{
    if i < s.len() && s[i] != (' ' as u8) {
        token_end(s, i + 1)
    } else {
        i
    }
}

proof fn lemma_token_end_bounds(s: Seq<u8>, i: int)
    requires
        0 <= i <= s.len(),
    ensures
        i <= token_end(s, i) <= s.len(),
    decreases s.len() - i,
{
    if i < s.len() && s[i] != (' ' as u8) {
        lemma_token_end_bounds(s, i + 1);
    }
}

/// The input split at every single space, empty pieces kept, starting
/// at position `i`.
pub open spec fn spec_split_from(s: Seq<u8>, i: int) -> Seq<Seq<u8>>
    decreases s.len() - i when 0 <= i <= s.len() via spec_split_from_dec
{
    let e = token_end(s, i);
    if e >= s.len() {
        seq![s.subrange(i, s.len() as int)]
    } else {
        seq![s.subrange(i, e)] + spec_split_from(s, e + 1)
    }
}

#[via_fn]
proof fn spec_split_from_dec(s: Seq<u8>, i: int) {
    lemma_token_end_bounds(s, i);
}

/// The input split at every single space, empty pieces kept.
pub open spec fn spec_split(s: Seq<u8>) -> Seq<Seq<u8>> {
    spec_split_from(s, 0)
}

/// A token that the section grammar accepts in full.
pub open spec fn token_ok(t: Seq<u8>) -> bool {
    match spec_parse_section(t) {
        Some((h, w, e)) => e == t.len(),
        None => false,
    }
}

/// The header bytes and selector a fully accepted token denotes.
pub open spec fn spec_token_section(t: Seq<u8>) -> (Seq<u8>, RangeOrNumber) {
    match spec_parse_section(t) {
        Some((h, w, e)) => (h, w),
        None => (Seq::empty(), RangeOrNumber::Number(0)),
    }
}

/// `sec` is the section that the token `t` denotes.
pub open spec fn section_from(sec: LyricSection, t: Seq<u8>) -> bool {
    sec.header@ == chars_of_ascii(spec_token_section(t).0) && sec.words == spec_token_section(t).1
}

/// Scans past leading whitespace from `from`.
fn scan_front_ws(s: &[u8], from: usize) -> (e: usize)
    requires
        from <= s@.len(),
    ensures
        e == front_ws_end(s@, from as int),
        from <= e <= s@.len(),
    decreases s@.len() - from,
{
    if from < s.len() && (s[from] == (' ' as u8) || 9 <= s[from] && s[from] <= 13) {
        scan_front_ws(s, from + 1)
    } else {
        from
    }
}

/// Scans past trailing whitespace, moving down from `from`.
fn scan_back_ws(s: &[u8], from: usize) -> (e: usize)
    requires
        from <= s@.len(),
    ensures
        e == back_ws_start(s@, from as int),
        e <= from,
    decreases from,
{
    if from > 0 && (s[from - 1] == (' ' as u8) || 9 <= s[from - 1] && s[from - 1] <= 13) {
        scan_back_ws(s, from - 1)
    } else {
        from
    }
}

/// Scans to the next space or the end of the input.
fn scan_token(s: &[u8], from: usize) -> (e: usize)
    requires
        from <= s@.len(),
    ensures
        e == token_end(s@, from as int),
        from <= e <= s@.len(),
    decreases s@.len() - from,
{
    if from < s.len() && s[from] != (' ' as u8) {
        scan_token(s, from + 1)
    } else {
        from
    }
}

/// Parses a whole user input string into the ordered section list.
///
/// The input is trimmed of leading and trailing ASCII whitespace and
/// split at every single space; each piece must then be a section
/// token that the grammar accepts in full.  An input that is empty
/// after trimming yields the empty list.  Otherwise the first piece
/// that the grammar rejects is reported as a `GrammarError` holding
/// that piece, and token order is preserved as section order.
pub fn parse_sections(input: &[u8]) -> (r: Result<Vec<LyricSection>, GrammarError>)
    ensures
        ({
            let trimmed = spec_trim(input@);
            let toks = spec_split(trimmed);
            if trimmed.len() == 0 {
                r matches Ok(v) && v@.len() == 0
            } else {
                match r {
                    Ok(v) => v@.len() == toks.len() && (forall|k: int|
                        0 <= k < toks.len() ==> token_ok(#[trigger] toks[k]) && section_from(
                            v@[k],
                            toks[k],
                        )),
                    Err(e) => exists|k: int|
                        0 <= k < toks.len() && !token_ok(#[trigger] toks[k]) && (forall|j: int|
                            0 <= j < k ==> token_ok(#[trigger] toks[j])) && e.fragment@ == toks[k],
                }
            }
        }),
{
    let lo = scan_front_ws(input, 0);
    let hi = scan_back_ws(input, input.len());
    if lo >= hi {
        proof {
            assert(spec_trim(input@).len() == 0);
        }
        return Ok(Vec::new());
    }
    let t: &[u8] = &input[lo..hi];
    proof {
        assert(t@ == spec_trim(input@));
    }
    let n = t.len();
    let mut out: Vec<LyricSection> = Vec::new();
    let mut cur: usize = 0;
    loop
        invariant
            cur <= n,
            n == t@.len(),
            n >= 1,
            t@ == spec_trim(input@),
            spec_trim(input@).len() > 0,
            out@.len() <= spec_split(t@).len(),
            spec_split_from(t@, cur as int) =~= spec_split(t@).skip(out@.len() as int),
            forall|k: int|
                0 <= k < out@.len() ==> token_ok(#[trigger] spec_split(t@)[k]) && section_from(
                    out@[k],
                    spec_split(t@)[k],
                ),
        decreases n - cur,
    {
        let ghost toks = spec_split(t@);
        let ghost d = out@.len() as int;
        let e = scan_token(t, cur);
        let tok: &[u8] = &t[cur..e];
        proof {
            assert(spec_split_from(t@, cur as int)[0] == t@.subrange(cur as int, e as int));
            assert(toks.skip(d).len() >= 1);
            assert(toks.skip(d)[0] == toks[d]);
            assert(tok@ == toks[d]);
        }
        match create_section(tok) {
            Err(err) => {
                proof {
                    assert(!token_ok(toks[d]));
                }
                return Err(err);
            },
            Ok((sec, used)) => {
                if used != tok.len() {
                    proof {
                        assert(!token_ok(toks[d]));
                    }
                    return Err(grammar_err(tok));
                }
                proof {
                    assert(token_ok(toks[d]));
                    assert(section_from(sec, toks[d]));
                }
                out.push(sec);
                if e == n {
                    proof {
                        assert(toks.skip(d).len() == 1);
                        assert(out@.len() == toks.len());
                    }
                    return Ok(out);
                }
                proof {
                    assert(spec_split_from(t@, e + 1) =~= toks.skip(d + 1)) by {
                        assert(spec_split_from(t@, cur as int) == seq![
                            t@.subrange(cur as int, e as int),
                        ] + spec_split_from(t@, e + 1));
                        assert(toks.skip(d).drop_first() =~= toks.skip(d + 1));
                    }
                }
                cur = e + 1;
            },
        }
    }
}

/// Index just past `"http://"` or `"https://"` at the start of `s`,
/// the longer scheme tried first.
pub open spec fn spec_scheme_end(s: Seq<u8>) -> Option<int> {
    if s.len() >= 8 && s[0] == ('h' as u8) && s[1] == ('t' as u8) && s[2] == ('t' as u8) && s[3]
        == ('p' as u8) && s[4] == ('s' as u8) && s[5] == (':' as u8) && s[6] == ('/' as u8) && s[7]
        == ('/' as u8) {
        Some(8)
    } else if s.len() >= 7 && s[0] == ('h' as u8) && s[1] == ('t' as u8) && s[2] == ('t' as u8)
        && s[3] == ('p' as u8) && s[4] == (':' as u8) && s[5] == ('/' as u8) && s[6] == (
    '/' as u8) {
        Some(7)
    } else {
        None
    }
}

/// Index just past an optional `"www."` at position `i`.
pub open spec fn spec_www_end(s: Seq<u8>, i: int) -> int {
    if i + 4 <= s.len() && s[i] == ('w' as u8) && s[i + 1] == ('w' as u8) && s[i + 2] == (
    'w' as u8) && s[i + 3] == ('.' as u8) {
        i + 4
    } else {
        i
    }
}

/// Parses the URL grammar at the start of `s`: scheme, optional
/// `"www."`, an alphanumeric name, then the literal `".com"`.  Yields
/// the name bytes and the position just past `".com"`; anything after
/// that is tolerated and left unread.
pub open spec fn spec_match_domain(s: Seq<u8>) -> Option<(Seq<u8>, int)> {
    match spec_scheme_end(s) {
        None => None,
        Some(scheme_end) => {
            let i = spec_www_end(s, scheme_end);
            let e = alnum_run_end(s, i);
            if e == i {
                None
            } else if e + 4 <= s.len() && s[e] == ('.' as u8) && s[e + 1] == ('c' as u8) && s[e + 2]
                == ('o' as u8) && s[e + 3] == ('m' as u8) {
                Some((s.subrange(i, e), e + 4))
            } else {
                None
            }
        },
    }
}

/// Parses a URL against the URL grammar and looks the extracted name
/// up in the closed registry.
///
/// Returns `Err` when the URL does not match the grammar at all,
/// `Ok(None)` when it does but names an unregistered source, and
/// `Ok(Some(d))` when the name is registered.
pub fn match_domain(url: &[u8]) -> (r: Result<Option<SupportedDomain>, GrammarError>)
    ensures
        match spec_match_domain(url@) {
            Some(t) => r matches Ok(d) && d == domain_of(t.0),
            None => r matches Err(e) && e.fragment@ == url@,
        },
{
    let scheme_end: usize;
    if url.len() >= 8 && url[0] == ('h' as u8) && url[1] == ('t' as u8) && url[2] == ('t' as u8)
        && url[3] == ('p' as u8) && url[4] == ('s' as u8) && url[5] == (':' as u8) && url[6] == (
    '/' as u8) && url[7] == ('/' as u8) {
        scheme_end = 8;
    } else if url.len() >= 7 && url[0] == ('h' as u8) && url[1] == ('t' as u8) && url[2] == (
    't' as u8) && url[3] == ('p' as u8) && url[4] == (':' as u8) && url[5] == ('/' as u8) && url[6]
        == ('/' as u8) {
        scheme_end = 7;
    } else {
        return Err(grammar_err(url));
    }
    let name_start: usize;
    if url.len() - scheme_end >= 4 && url[scheme_end] == ('w' as u8) && url[scheme_end + 1] == (
    'w' as u8) && url[scheme_end + 2] == ('w' as u8) && url[scheme_end + 3] == ('.' as u8) {
        name_start = scheme_end + 4;
    } else {
        name_start = scheme_end;
    }
    let name_end = scan_alnum(url, name_start);
    if name_end == name_start {
        return Err(grammar_err(url));
    }
    if url.len() - name_end >= 4 && url[name_end] == ('.' as u8) && url[name_end + 1] == (
    'c' as u8) && url[name_end + 2] == ('o' as u8) && url[name_end + 3] == ('m' as u8) {
        let name: &[u8] = &url[name_start..name_end];
        Ok(crate::models::domain_from_bytes(name))
    } else {
        Err(grammar_err(url))
    }
}

/// The message for a URL that breaks the URL grammar.
pub open spec fn spec_url_shape_message() -> Seq<char> {
    "Use an absolute URL: http(s)://[www.]<domain>.com/..."@
}

/// Checks a raw URL before any work is scheduled.
///
/// `Ok` exactly when the URL matches the URL grammar and names a
/// registered source.  A URL that breaks the grammar earns the shape
/// message; a well-shaped URL naming an unregistered source earns the
/// message that enumerates every registered identifier.
pub fn valid_target_domain(url: &str) -> (r: Result<(), String>)
    ensures
        match spec_match_domain(url.spec_bytes()) {
            Some(t) => match domain_of(t.0) {
                Some(d) => r is Ok,
                None => r matches Err(m) && m@ == crate::models::spec_variants_message(),
            },
            None => r matches Err(m) && m@ == spec_url_shape_message(),
        },
{
    match match_domain(url.as_bytes()) {
        Err(_) => Err("Use an absolute URL: http(s)://[www.]<domain>.com/...".to_owned()),
        Ok(None) => Err(SupportedDomain::print_variants()),
        Ok(Some(_)) => Ok(()),
    }
}

/// The decimal digits of `n`, most significant first, no leading
/// zeros: the inverse mapping for numbers.
pub open spec fn spec_dec(n: nat) -> Seq<u8>
    decreases n,
{
    if n < 10 {
        seq![(n + ('0' as u8)) as u8]
    } else {
        spec_dec(n / 10).push(((n % 10) + ('0' as u8)) as u8)
    }
}

/// The inverse mapping for selectors: `(n)` or `(n..m)`.
pub open spec fn spec_serialize_selector(w: RangeOrNumber) -> Seq<u8> {
    match w {
        RangeOrNumber::Number(n) => seq![('(' as u8)] + spec_dec(n as nat) + seq![(')' as u8)],
        RangeOrNumber::Range(lo, hi) => seq![('(' as u8)] + spec_dec(lo as nat) + seq![
            ('.' as u8),
            ('.' as u8),
        ] + spec_dec(hi as nat) + seq![(')' as u8)],
    }
}

/// The inverse mapping for whole sections: `[header](...)`.
pub open spec fn spec_serialize_section(h: Seq<u8>, w: RangeOrNumber) -> Seq<u8> {
    seq![('[' as u8)] + h + seq![(']' as u8)] + spec_serialize_selector(w)
}

proof fn lemma_dec_digits(n: nat)
    ensures
        spec_dec(n).len() >= 1,
        forall|k: int| 0 <= k < spec_dec(n).len() ==> is_digit(#[trigger] spec_dec(n)[k]),
    decreases n,
{
    if n >= 10 {
        lemma_dec_digits(n / 10);
    }
}

proof fn lemma_dec_val(n: nat)
    ensures
        digits_val(spec_dec(n)) == n,
    decreases n,
{
    if n < 10 {
        assert(spec_dec(n).drop_last() =~= Seq::<u8>::empty());
        assert(digits_val(Seq::<u8>::empty()) == 0);
        assert(spec_dec(n).last() == (n + ('0' as u8)) as u8);
        assert((n + ('0' as u8)) as u8 == n + 48);
    } else {
        lemma_dec_val(n / 10);
        assert(spec_dec(n).drop_last() =~= spec_dec(n / 10));
        assert(spec_dec(n).last() == ((n % 10) + ('0' as u8)) as u8);
        assert(((n % 10) + ('0' as u8)) as u8 == n % 10 + 48);
        assert(n == 10 * (n / 10) + n % 10) by (nonlinear_arith);
    }
}

proof fn lemma_digit_run_exact(s: Seq<u8>, i: int, e: int)
    requires
        0 <= i <= e <= s.len(),
        forall|k: int| i <= k < e ==> is_digit(#[trigger] s[k]),
        e == s.len() || !is_digit(s[e]),
    ensures
        digit_run_end(s, i) == e,
    decreases e - i,
{
    if i < e {
        lemma_digit_run_exact(s, i + 1, e);
    }
}

proof fn lemma_alnum_run_exact(s: Seq<u8>, i: int, e: int)
    requires
        0 <= i <= e <= s.len(),
        forall|k: int| i <= k < e ==> is_alnum(#[trigger] s[k]),
        e == s.len() || !is_alnum(s[e]),
    ensures
        alnum_run_end(s, i) == e,
    decreases e - i,
{
    if i < e {
        lemma_alnum_run_exact(s, i + 1, e);
    }
}

proof fn lemma_alnum_run_all(s: Seq<u8>, i: int)
    requires
        0 <= i <= s.len(),
    ensures
        i <= alnum_run_end(s, i) <= s.len(),
        forall|k: int| i <= k < alnum_run_end(s, i) ==> is_alnum(#[trigger] s[k]),
    decreases s.len() - i,
{
    if i < s.len() && is_alnum(s[i]) {
        lemma_alnum_run_all(s, i + 1);
    }
}

/// A serialized selector standing as the tail of `s` parses back to
/// the selector it came from.
proof fn lemma_parse_serialized_selector(s: Seq<u8>, i: int, w: RangeOrNumber)
    requires
        0 <= i <= s.len(),
        s.subrange(i, s.len() as int) == spec_serialize_selector(w),
    ensures
        spec_parse_selector(s, i) == Some((w, s.len() as int)),
{
    let sel = spec_serialize_selector(w);
    let n = s.len() as int;
    assert forall|k: int| 0 <= k < sel.len() implies s[i + k] == #[trigger] sel[k] by {
        assert(s.subrange(i, n)[k] == s[i + k]);
    }
    match w {
        RangeOrNumber::Number(num) => {
            let d = spec_dec(num as nat);
            lemma_dec_digits(num as nat);
            lemma_dec_val(num as nat);
            let dl = d.len() as int;
            assert(sel.len() == dl + 2);
            assert(s[i + 0] == sel[0]);
            assert(s[i] == ('(' as u8));
            assert forall|k: int| i + 1 <= k < i + 1 + dl implies is_digit(#[trigger] s[k]) by {
                assert(s[i + (k - i)] == sel[k - i]);
                assert(sel[k - i] == d[k - i - 1]);
            }
            assert(s[i + (1 + dl)] == sel[1 + dl]);
            assert(s[i + 1 + dl] == (')' as u8));
            lemma_digit_run_exact(s, i + 1, i + 1 + dl);
            assert(s.subrange(i + 1, i + 1 + dl) =~= d) by {
                assert forall|k: int| 0 <= k < dl implies s.subrange(i + 1, i + 1 + dl)[k]
                    == d[k] by {
                    assert(s[i + (1 + k)] == sel[1 + k]);
                }
            }
            assert(spec_parse_num(s, i + 1) == Some((num, i + 1 + dl)));
        },
        RangeOrNumber::Range(lo, hi) => {
            let a = spec_dec(lo as nat);
            let b = spec_dec(hi as nat);
            lemma_dec_digits(lo as nat);
            lemma_dec_val(lo as nat);
            lemma_dec_digits(hi as nat);
            lemma_dec_val(hi as nat);
            let al = a.len() as int;
            let bl = b.len() as int;
            assert(sel.len() == al + bl + 4);
            assert(s[i + 0] == sel[0]);
            assert(s[i] == ('(' as u8));
            assert forall|k: int| i + 1 <= k < i + 1 + al implies is_digit(#[trigger] s[k]) by {
                assert(s[i + (k - i)] == sel[k - i]);
                assert(sel[k - i] == a[k - i - 1]);
            }
            assert(s[i + (1 + al)] == sel[1 + al]);
            assert(s[i + 1 + al] == ('.' as u8));
            assert(s[i + (2 + al)] == sel[2 + al]);
            assert(s[i + 2 + al] == ('.' as u8));
            lemma_digit_run_exact(s, i + 1, i + 1 + al);
            assert(s.subrange(i + 1, i + 1 + al) =~= a) by {
                assert forall|k: int| 0 <= k < al implies s.subrange(i + 1, i + 1 + al)[k]
                    == a[k] by {
                    assert(s[i + (1 + k)] == sel[1 + k]);
                }
            }
            assert(spec_parse_num(s, i + 1) == Some((lo, i + 1 + al)));
            let j = i + 3 + al;
            assert forall|k: int| j <= k < j + bl implies is_digit(#[trigger] s[k]) by {
                assert(s[i + (k - i)] == sel[k - i]);
                assert(sel[k - i] == b[k - i - 3 - al]);
            }
            assert(s[i + (3 + al + bl)] == sel[3 + al + bl]);
            assert(s[j + bl] == (')' as u8));
            lemma_digit_run_exact(s, j, j + bl);
            assert(s.subrange(j, j + bl) =~= b) by {
                assert forall|k: int| 0 <= k < bl implies s.subrange(j, j + bl)[k] == b[k] by {
                    assert(s[i + (3 + al + k)] == sel[3 + al + k]);
                }
            }
            assert(spec_parse_num(s, j) == Some((hi, j + bl)));
        },
    }
}

/// Grammar totality for the inverse mapping: the serialization of any
/// well-formed header and selector is accepted in full by the section
/// grammar and parses back to exactly that header and selector.
pub proof fn lemma_serialized_token_parses(h: Seq<u8>, w: RangeOrNumber)
    ensures
        h.len() >= 1 && (forall|k: int| 0 <= k < h.len() ==> is_alnum(#[trigger] h[k]))
            ==> spec_parse_section(spec_serialize_section(h, w)) == Some(
            (h, w, spec_serialize_section(h, w).len() as int),
        ),
{
    if h.len() >= 1 && (forall|k: int| 0 <= k < h.len() ==> is_alnum(#[trigger] h[k])) {
        let t = spec_serialize_section(h, w);
        let hl = h.len() as int;
        assert(t[0] == ('[' as u8));
        assert(forall|k: int| 0 <= k < hl ==> t[1 + k] == #[trigger] h[k]);
        assert(forall|k: int| 1 <= k < 1 + hl ==> is_alnum(#[trigger] t[k]));
        assert(t[1 + hl] == (']' as u8));
        assert(!is_alnum((']' as u8)));
        lemma_alnum_run_exact(t, 1, 1 + hl);
        assert(t.subrange(1, 1 + hl) =~= h);
        assert(spec_parse_header(t) == Some((h, 2 + hl)));
        assert(t.subrange(2 + hl, t.len() as int) =~= spec_serialize_selector(w));
        lemma_parse_serialized_selector(t, 2 + hl, w);
    }
}

/// Grammar round trip: every token the section grammar accepts, when
/// re-serialized from the parsed header and selector, parses back to
/// the same header and selector.
pub proof fn lemma_grammar_round_trip(s: Seq<u8>, h: Seq<u8>, w: RangeOrNumber, e: int)
    requires
        spec_parse_section(s) == Some((h, w, e)),
    ensures
        spec_parse_section(spec_serialize_section(h, w)) == Some(
            (h, w, spec_serialize_section(h, w).len() as int),
        ),
{
    let hd = spec_parse_header(s);
    assert(hd is Some);
    let e1 = alnum_run_end(s, 1);
    lemma_alnum_run_all(s, 1);
    assert(h == s.subrange(1, e1));
    assert(h.len() >= 1);
    assert(forall|k: int| 0 <= k < h.len() ==> is_alnum(#[trigger] h[k]));
    lemma_serialized_token_parses(h, w);
}

} // verus!
