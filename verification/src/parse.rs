//! The configuration document grammar and its parser.
//!
//! The document is UTF-8 JSON of the shape described alongside
//! [`crate::config::Config`]: an object with string fields `source` and
//! `destination`, an optional `platforms` array of strings, and an
//! `images` array of objects, each with a string `image`, a `versions`
//! array of strings, and an optional `platforms` array of strings.
//! Fields may appear in any order; an unknown field is passed over,
//! provided its value is well-formed JSON of any kind.  A repeated
//! known field, a missing required field, invalid UTF-8, or any
//! lexical fault rejects the whole document.
//!
//! The grammar is stated as recursive specification functions over the
//! byte sequence, each returning the parsed value and the index just
//! past it, or `None`.  The executable parser is proved to return
//! exactly what the grammar says, for every input.

use vstd::prelude::*;

use crate::bytes::bytes_eq_lit;
use crate::bytes::lit;
use crate::config::{Config, ConfigError, ConfigModel, Image, ImageModel};

verus! {

/// JSON insignificant whitespace.
pub open spec fn is_ws(b: u8) -> bool {
    b == ' ' as u8 || b == '\t' as u8 || b == '\n' as u8 || b == '\r' as u8
}

/// The first index at or after `i` holding a non-whitespace byte (or
/// the end of the input).
pub open spec fn spec_skip_ws(s: Seq<u8>, i: int) -> int
    decreases s.len() - i,
{
    if 0 <= i < s.len() && is_ws(s[i]) {
        spec_skip_ws(s, i + 1)
    } else {
        i
    }
}

proof fn lemma_skip_ws_bounds(s: Seq<u8>, i: int)
    requires
        0 <= i <= s.len(),
    ensures
        i <= spec_skip_ws(s, i) <= s.len(),
    decreases s.len() - i,
{
    if i < s.len() && is_ws(s[i]) {
        lemma_skip_ws_bounds(s, i + 1);
    }
}

/// Skips whitespace starting at `i`.
fn skip_ws(s: &Vec<u8>, i: usize) -> (r: usize)
    requires
        i <= s@.len(),
    ensures
        r == spec_skip_ws(s@, i as int),
        i <= r <= s@.len(),
    decreases s@.len() - i,
{
    if i < s.len() {
        let b = s[i];
        if b == ' ' as u8 || b == '\t' as u8 || b == '\n' as u8 || b == '\r' as u8 {
            return skip_ws(s, i + 1);
        }
    }
    i
}

/// What a single-character backslash escape inside a string stands
/// for; `None` for an escape the grammar does not accept (`\u` is
/// handled separately).
pub open spec fn spec_escape(b: u8) -> Option<u8> {
    if b == '"' as u8 {
        Some('"' as u8)
    } else if b == '\\' as u8 {
        Some('\\' as u8)
    } else if b == '/' as u8 {
        Some('/' as u8)
    } else if b == 'b' as u8 {
        Some(8u8)
    } else if b == 'f' as u8 {
        Some(12u8)
    } else if b == 'n' as u8 {
        Some(10u8)
    } else if b == 'r' as u8 {
        Some(13u8)
    } else if b == 't' as u8 {
        Some(9u8)
    } else {
        None
    }
}

/// The value of one hexadecimal digit, upper or lower case.
pub open spec fn hex_val(b: u8) -> Option<u32> {
    if '0' as u8 <= b <= '9' as u8 {
        Some((b - '0' as u8) as u32)
    } else if 'a' as u8 <= b <= 'f' as u8 {
        Some((b - 'a' as u8 + 10) as u32)
    } else if 'A' as u8 <= b <= 'F' as u8 {
        Some((b - 'A' as u8 + 10) as u32)
    } else {
        None
    }
}

/// The value of the four hexadecimal digits at `i`, as in a `\u`
/// escape; `None` when they are missing or not hexadecimal.
pub open spec fn spec_hex4(s: Seq<u8>, i: int) -> Option<u32> {
    if i < 0 || i + 4 > s.len() {
        None
    } else {
        match (hex_val(s[i]), hex_val(s[i + 1]), hex_val(s[i + 2]), hex_val(s[i + 3])) {
            (Some(a), Some(b), Some(c), Some(d)) => Some(
                (a * 0x1000 + b * 0x100 + c * 0x10 + d) as u32,
            ),
            _ => None,
        }
    }
}

/// The scalar a UTF-16 surrogate pair stands for.
pub open spec fn combine_surrogates(hi: u32, lo: u32) -> u32
    recommends
        0xD800 <= hi < 0xDC00,
        0xDC00 <= lo < 0xE000,
{
    (0x10000 + (hi - 0xD800) * 0x400 + (lo - 0xDC00)) as u32
}

/// The UTF-8 encoding of one Unicode scalar value.
pub open spec fn utf8_bytes(c: u32) -> Seq<u8>
    recommends
        c < 0x110000,
{
    if c < 0x80 {
        seq![c as u8]
    } else if c < 0x800 {
        seq![(0xC0 + c / 0x40) as u8, (0x80 + c % 0x40) as u8]
    } else if c < 0x10000 {
        seq![(0xE0 + c / 0x1000) as u8, (0x80 + (c / 0x40) % 0x40) as u8, (0x80 + c % 0x40) as u8]
    } else {
        seq![
            (0xF0 + c / 0x40000) as u8,
            (0x80 + (c / 0x1000) % 0x40) as u8,
            (0x80 + (c / 0x40) % 0x40) as u8,
            (0x80 + c % 0x40) as u8,
        ]
    }
}

/// The rest of a string, starting just after the opening quote: the
/// unescaped content and the index just past the closing quote.
/// A `\uXXXX` escape stands for the UTF-8 bytes of its code point; a
/// high surrogate must be followed by a `\u` low surrogate, and a lone
/// surrogate is rejected.  Unescaped control bytes and unknown escapes
/// are rejected.
pub open spec fn spec_string_body(s: Seq<u8>, i: int) -> Option<(Seq<u8>, int)>
    decreases s.len() - i,
{
    if i < 0 || i >= s.len() {
        None
    } else if s[i] == '"' as u8 {
        Some((Seq::empty(), i + 1))
    } else if s[i] == '\\' as u8 {
        if i + 1 >= s.len() {
            None
        } else if s[i + 1] == 'u' as u8 {
            match spec_hex4(s, i + 2) {
                None => None,
                Some(c) => if 0xD800 <= c < 0xDC00 {
                    if i + 8 <= s.len() && s[i + 6] == '\\' as u8 && s[i + 7] == 'u' as u8 {
                        match spec_hex4(s, i + 8) {
                            None => None,
                            Some(c2) => if 0xDC00 <= c2 < 0xE000 {
                                match spec_string_body(s, i + 12) {
                                    None => None,
                                    Some((rest, j)) => Some(
                                        (utf8_bytes(combine_surrogates(c, c2)) + rest, j),
                                    ),
                                }
                            } else {
                                None
                            },
                        }
                    } else {
                        None
                    }
                } else if 0xDC00 <= c < 0xE000 {
                    None
                } else {
                    match spec_string_body(s, i + 6) {
                        None => None,
                        Some((rest, j)) => Some((utf8_bytes(c) + rest, j)),
                    }
                },
            }
        } else {
            match spec_escape(s[i + 1]) {
                None => None,
                Some(b) => match spec_string_body(s, i + 2) {
                    None => None,
                    Some((rest, j)) => Some((seq![b] + rest, j)),
                },
            }
        }
    } else if s[i] < 32 {
        None
    } else {
        match spec_string_body(s, i + 1) {
            None => None,
            Some((rest, j)) => Some((seq![s[i]] + rest, j)),
        }
    }
}

/// A quoted string starting at `i`.
pub open spec fn spec_string(s: Seq<u8>, i: int) -> Option<(Seq<u8>, int)> {
    if 0 <= i < s.len() && s[i] == '"' as u8 {
        spec_string_body(s, i + 1)
    } else {
        None
    }
}

proof fn lemma_string_body_adv(s: Seq<u8>, i: int)
    requires
        spec_string_body(s, i) is Some,
    ensures
        i < spec_string_body(s, i).unwrap().1 <= s.len(),
    decreases s.len() - i,
{
    if s[i] == '"' as u8 {
    } else if s[i] == '\\' as u8 {
        if s[i + 1] == 'u' as u8 {
            let c = spec_hex4(s, i + 2).unwrap();
            if 0xD800 <= c < 0xDC00 {
                lemma_string_body_adv(s, i + 12);
            } else {
                lemma_string_body_adv(s, i + 6);
            }
        } else {
            lemma_string_body_adv(s, i + 2);
        }
    } else {
        lemma_string_body_adv(s, i + 1);
    }
}

proof fn lemma_string_adv(s: Seq<u8>, i: int)
    requires
        spec_string(s, i) is Some,
    ensures
        i < spec_string(s, i).unwrap().1 <= s.len(),
{
    lemma_string_body_adv(s, i + 1);
}

/// How one result relates to the same result with `pre` prepended to
/// its content.
pub open spec fn prepend_str(pre: Seq<u8>, r: Option<(Seq<u8>, int)>) -> Option<(Seq<u8>, int)> {
    match r {
        None => None,
        Some((v, j)) => Some((pre + v, j)),
    }
}

proof fn lemma_prepend_one(pre: Seq<u8>, b: u8, r: Option<(Seq<u8>, int)>)
    ensures
        prepend_str(pre.push(b), r) == prepend_str(pre, prepend_str(seq![b], r)),
{
    match r {
        None => {},
        Some((v, j)) => {
            assert(pre.push(b) + v =~= pre + (seq![b] + v));
        },
    }
}

proof fn lemma_prepend_seq(pre: Seq<u8>, add: Seq<u8>, r: Option<(Seq<u8>, int)>)
    ensures
        prepend_str(pre + add, r) == prepend_str(pre, prepend_str(add, r)),
{
    match r {
        None => {},
        Some((v, j)) => {
            assert((pre + add) + v =~= pre + (add + v));
        },
    }
}

/// Matches an executable string-parse result against the grammar's.
pub open spec fn str_res_match(r: Option<(Vec<u8>, usize)>, sr: Option<(Seq<u8>, int)>) -> bool {
    match (r, sr) {
        (Some(p), Some(sp)) => p.0@ == sp.0 && p.1 as int == sp.1,
        (None, None) => true,
        _ => false,
    }
}

/// What a backslash escape stands for.
fn escape_byte(b: u8) -> (r: Option<u8>)
    ensures
        r == spec_escape(b),
{
    if b == '"' as u8 {
        Some('"' as u8)
    } else if b == '\\' as u8 {
        Some('\\' as u8)
    } else if b == '/' as u8 {
        Some('/' as u8)
    } else if b == 'b' as u8 {
        Some(8u8)
    } else if b == 'f' as u8 {
        Some(12u8)
    } else if b == 'n' as u8 {
        Some(10u8)
    } else if b == 'r' as u8 {
        Some(13u8)
    } else if b == 't' as u8 {
        Some(9u8)
    } else {
        None
    }
}

/// The value of one hexadecimal digit.
fn hex_digit(b: u8) -> (r: Option<u32>)
    ensures
        r == hex_val(b),
{
    if '0' as u8 <= b && b <= '9' as u8 {
        Some((b - '0' as u8) as u32)
    } else if 'a' as u8 <= b && b <= 'f' as u8 {
        Some((b - 'a' as u8 + 10) as u32)
    } else if 'A' as u8 <= b && b <= 'F' as u8 {
        Some((b - 'A' as u8 + 10) as u32)
    } else {
        None
    }
}

/// Reads the four hexadecimal digits of a `\u` escape.
fn hex4(s: &Vec<u8>, i: usize) -> (r: Option<u32>)
    requires
        i <= s@.len(),
    ensures
        r == spec_hex4(s@, i as int),
{
    if s.len() - i < 4 {
        return None;
    }
    match (hex_digit(s[i]), hex_digit(s[i + 1]), hex_digit(s[i + 2]), hex_digit(s[i + 3])) {
        (Some(a), Some(b), Some(c), Some(d)) => Some(a * 0x1000 + b * 0x100 + c * 0x10 + d),
        _ => None,
    }
}

/// Appends the UTF-8 encoding of one Unicode scalar value.
fn push_utf8(acc: &mut Vec<u8>, c: u32)
    requires
        c < 0x110000,
    ensures
        final(acc)@ == old(acc)@ + utf8_bytes(c),
{
    if c < 0x80 {
        acc.push(c as u8);
    } else if c < 0x800 {
        acc.push((0xC0 + c / 0x40) as u8);
        acc.push((0x80 + c % 0x40) as u8);
    } else if c < 0x10000 {
        acc.push((0xE0 + c / 0x1000) as u8);
        acc.push((0x80 + (c / 0x40) % 0x40) as u8);
        acc.push((0x80 + c % 0x40) as u8);
    } else {
        acc.push((0xF0 + c / 0x40000) as u8);
        acc.push((0x80 + (c / 0x1000) % 0x40) as u8);
        acc.push((0x80 + (c / 0x40) % 0x40) as u8);
        acc.push((0x80 + c % 0x40) as u8);
    }
    proof {
        assert(acc@ =~= old(acc)@ + utf8_bytes(c));
    }
}

/// Parses the rest of a string, just after the opening quote.
fn parse_string_body(s: &Vec<u8>, i: usize) -> (r: Option<(Vec<u8>, usize)>)
    requires
        i <= s@.len(),
    ensures
        str_res_match(r, spec_string_body(s@, i as int)),
{
    let mut acc: Vec<u8> = Vec::new();
    let mut cur: usize = i;
    proof {
        assert(Seq::<u8>::empty() + spec_string_body(s@, i as int).unwrap().0 =~= spec_string_body(
            s@,
            i as int,
        ).unwrap().0);
    }
    loop
        invariant
            i <= cur <= s@.len(),
            prepend_str(acc@, spec_string_body(s@, cur as int)) == spec_string_body(s@, i as int),
        decreases s@.len() - cur,
    {
        if cur >= s.len() {
            return None;
        }
        let b = s[cur];
        if b == '"' as u8 {
            proof {
                assert(acc@ + Seq::<u8>::empty() =~= acc@);
            }
            return Some((acc, cur + 1));
        } else if b == '\\' as u8 {
            if cur + 1 >= s.len() {
                return None;
            }
            let e = s[cur + 1];
            if e == 'u' as u8 {
                match hex4(s, cur + 2) {
                    None => {
                        return None;
                    },
                    Some(c) => {
                        if c >= 0xD800 && c < 0xDC00 {
                            if s.len() - cur < 8 {
                                return None;
                            }
                            if s[cur + 6] != '\\' as u8 || s[cur + 7] != 'u' as u8 {
                                return None;
                            }
                            match hex4(s, cur + 8) {
                                None => {
                                    return None;
                                },
                                Some(c2) => {
                                    if !(c2 >= 0xDC00 && c2 < 0xE000) {
                                        return None;
                                    }
                                    let cp = 0x10000 + (c - 0xD800) * 0x400 + (c2 - 0xDC00);
                                    proof {
                                        assert(cp == combine_surrogates(c, c2));
                                        assert(cur + 12 <= s@.len());
                                        lemma_prepend_seq(
                                            acc@,
                                            utf8_bytes(cp),
                                            spec_string_body(s@, cur + 12),
                                        );
                                    }
                                    push_utf8(&mut acc, cp);
                                    cur = cur + 12;
                                },
                            }
                        } else if c >= 0xDC00 && c < 0xE000 {
                            return None;
                        } else {
                            proof {
                                assert(cur + 6 <= s@.len());
                                lemma_prepend_seq(
                                    acc@,
                                    utf8_bytes(c),
                                    spec_string_body(s@, cur + 6),
                                );
                            }
                            push_utf8(&mut acc, c);
                            cur = cur + 6;
                        }
                    },
                }
            } else {
                match escape_byte(e) {
                    None => {
                        return None;
                    },
                    Some(d) => {
                        proof {
                            lemma_prepend_one(acc@, d, spec_string_body(s@, cur + 2));
                        }
                        acc.push(d);
                        cur = cur + 2;
                    },
                }
            }
        } else if b < 32 {
            return None;
        } else {
            proof {
                lemma_prepend_one(acc@, b, spec_string_body(s@, cur + 1));
            }
            acc.push(b);
            cur = cur + 1;
        }
    }
}

/// How an element-list result relates to the same result with `e`
/// prepended.
pub open spec fn prepend_elem(e: Seq<u8>, r: Option<(Seq<Seq<u8>>, int)>) -> Option<
    (Seq<Seq<u8>>, int),
> {
    match r {
        None => None,
        Some((v, j)) => Some((seq![e] + v, j)),
    }
}

/// The rest of a string array, after one element: either `]` closes
/// it, or a comma introduces the next quoted string.
pub open spec fn spec_strings_rest(s: Seq<u8>, i: int) -> Option<(Seq<Seq<u8>>, int)>
    decreases s.len() - i,
        when 0 <= i <= s.len()
        via spec_strings_rest_decreases
{
    let j = spec_skip_ws(s, i);
    if j >= s.len() {
        None
    } else if s[j] == ']' as u8 {
        Some((Seq::empty(), j + 1))
    } else if s[j] == ',' as u8 {
        let k = spec_skip_ws(s, j + 1);
        match spec_string(s, k) {
            None => None,
            Some((e, m)) => prepend_elem(e, spec_strings_rest(s, m)),
        }
    } else {
        None
    }
}

#[via_fn]
proof fn spec_strings_rest_decreases(s: Seq<u8>, i: int) {
    lemma_skip_ws_bounds(s, i);
    let j = spec_skip_ws(s, i);
    if j < s.len() && s[j] == ',' as u8 {
        lemma_skip_ws_bounds(s, j + 1);
        let k = spec_skip_ws(s, j + 1);
        if spec_string(s, k) is Some {
            lemma_string_adv(s, k);
        }
    }
}

/// A string array starting at `[`: zero or more quoted strings,
/// comma-separated, in brackets.
pub open spec fn spec_strings(s: Seq<u8>, i: int) -> Option<(Seq<Seq<u8>>, int)> {
    if 0 <= i < s.len() && s[i] == '[' as u8 {
        let j = spec_skip_ws(s, i + 1);
        if j < s.len() && s[j] == ']' as u8 {
            Some((Seq::empty(), j + 1))
        } else {
            match spec_string(s, j) {
                None => None,
                Some((e, m)) => prepend_elem(e, spec_strings_rest(s, m)),
            }
        }
    } else {
        None
    }
}

proof fn lemma_strings_rest_adv(s: Seq<u8>, i: int)
    requires
        0 <= i <= s.len(),
        spec_strings_rest(s, i) is Some,
    ensures
        i < spec_strings_rest(s, i).unwrap().1 <= s.len(),
    decreases s.len() - i,
{
    lemma_skip_ws_bounds(s, i);
    let j = spec_skip_ws(s, i);
    if j < s.len() && s[j] == ',' as u8 {
        lemma_skip_ws_bounds(s, j + 1);
        let k = spec_skip_ws(s, j + 1);
        lemma_string_adv(s, k);
        let m = spec_string(s, k).unwrap().1;
        lemma_strings_rest_adv(s, m);
    }
}

proof fn lemma_strings_adv(s: Seq<u8>, i: int)
    requires
        0 <= i <= s.len(),
        spec_strings(s, i) is Some,
    ensures
        i < spec_strings(s, i).unwrap().1 <= s.len(),
{
    let j = spec_skip_ws(s, i + 1);
    lemma_skip_ws_bounds(s, i + 1);
    if !(j < s.len() && s[j] == ']' as u8) {
        lemma_string_adv(s, j);
        let m = spec_string(s, j).unwrap().1;
        lemma_strings_rest_adv(s, m);
    }
}

/// Matches an executable array-parse result against the grammar's.
pub open spec fn strs_res_match(
    r: Option<(Vec<Vec<u8>>, usize)>,
    sr: Option<(Seq<Seq<u8>>, int)>,
) -> bool {
    match (r, sr) {
        (Some(p), Some(sp)) => p.0.deep_view() == sp.0 && p.1 as int == sp.1,
        (None, None) => true,
        _ => false,
    }
}

/// Parses the rest of a string array, after one element.
fn parse_strings_rest(s: &Vec<u8>, i: usize) -> (r: Option<(Vec<Vec<u8>>, usize)>)
    requires
        i <= s@.len(),
    ensures
        strs_res_match(r, spec_strings_rest(s@, i as int)),
    decreases s@.len() - i,
{
    let j = skip_ws(s, i);
    if j >= s.len() {
        return None;
    }
    let b = s[j];
    if b == ']' as u8 {
        let v: Vec<Vec<u8>> = Vec::new();
        proof {
            assert(v.deep_view() =~= Seq::<Seq<u8>>::empty());
        }
        Some((v, j + 1))
    } else if b == ',' as u8 {
        let k = skip_ws(s, j + 1);
        match parse_string(s, k) {
            None => None,
            Some((e, m)) => {
                proof {
                    lemma_string_adv(s@, k as int);
                }
                match parse_strings_rest(s, m) {
                    None => None,
                    Some((rest_end)) => {
                        let (mut rest, end) = rest_end;
                        let ghost r0 = rest.deep_view();
                        rest.insert(0, e);
                        proof {
                            assert(rest.deep_view() =~~= seq![e@] + r0);
                        }
                        Some((rest, end))
                    },
                }
            },
        }
    } else {
        None
    }
}

/// Parses a string array starting at `[`.
fn parse_strings(s: &Vec<u8>, i: usize) -> (r: Option<(Vec<Vec<u8>>, usize)>)
    requires
        i <= s@.len(),
    ensures
        strs_res_match(r, spec_strings(s@, i as int)),
{
    if !(i < s.len()) {
        return None;
    }
    if s[i] != '[' as u8 {
        return None;
    }
    let j = skip_ws(s, i + 1);
    if j < s.len() && s[j] == ']' as u8 {
        let v: Vec<Vec<u8>> = Vec::new();
        proof {
            assert(v.deep_view() =~= Seq::<Seq<u8>>::empty());
        }
        return Some((v, j + 1));
    }
    match parse_string(s, j) {
        None => None,
        Some((e, m)) => {
            proof {
                lemma_string_adv(s@, j as int);
            }
            match parse_strings_rest(s, m) {
                None => None,
                Some(rest_end) => {
                    let (mut rest, end) = rest_end;
                    let ghost r0 = rest.deep_view();
                    rest.insert(0, e);
                    proof {
                        assert(rest.deep_view() =~~= seq![e@] + r0);
                    }
                    Some((rest, end))
                },
            }
        },
    }
}

/// Parses a quoted string starting at `i`.
fn parse_string(s: &Vec<u8>, i: usize) -> (r: Option<(Vec<u8>, usize)>)
    requires
        i <= s@.len(),
    ensures
        str_res_match(r, spec_string(s@, i as int)),
{
    if i < s.len() {
        let b = s[i];
        if b == '"' as u8 {
            return parse_string_body(s, i + 1);
        }
    }
    None
}

/// A decimal digit.
pub open spec fn is_digit(b: u8) -> bool {
    '0' as u8 <= b <= '9' as u8
}

/// The first index at or after `i` holding a non-digit byte.
pub open spec fn spec_skip_digits(s: Seq<u8>, i: int) -> int
    decreases s.len() - i,
{
    if 0 <= i < s.len() && is_digit(s[i]) {
        spec_skip_digits(s, i + 1)
    } else {
        i
    }
}

proof fn lemma_skip_digits_bounds(s: Seq<u8>, i: int)
    requires
        0 <= i <= s.len(),
    ensures
        i <= spec_skip_digits(s, i) <= s.len(),
    decreases s.len() - i,
{
    if i < s.len() && is_digit(s[i]) {
        lemma_skip_digits_bounds(s, i + 1);
    }
}

/// The optional fraction part of a number at `i`: a dot must be
/// followed by at least one digit.
pub open spec fn spec_skip_frac(s: Seq<u8>, i: int) -> Option<int> {
    if 0 <= i < s.len() && s[i] == '.' as u8 {
        if i + 1 < s.len() && is_digit(s[i + 1]) {
            Some(spec_skip_digits(s, i + 1))
        } else {
            None
        }
    } else {
        Some(i)
    }
}

/// The optional exponent part of a number at `i`.
pub open spec fn spec_skip_exp(s: Seq<u8>, i: int) -> Option<int> {
    if 0 <= i < s.len() && (s[i] == 'e' as u8 || s[i] == 'E' as u8) {
        let j = if i + 1 < s.len() && (s[i + 1] == '+' as u8 || s[i + 1] == '-' as u8) {
            i + 2
        } else {
            i + 1
        };
        if j < s.len() && is_digit(s[j]) {
            Some(spec_skip_digits(s, j))
        } else {
            None
        }
    } else {
        Some(i)
    }
}

/// A number at `i`: optional minus, an integer part without leading
/// zeros, optional fraction, optional exponent.
pub open spec fn spec_skip_number(s: Seq<u8>, i: int) -> Option<int> {
    if i < 0 || i >= s.len() {
        None
    } else {
        let a = if s[i] == '-' as u8 {
            i + 1
        } else {
            i
        };
        if !(a < s.len() && is_digit(s[a])) {
            None
        } else {
            let b = if s[a] == '0' as u8 {
                a + 1
            } else {
                spec_skip_digits(s, a)
            };
            match spec_skip_frac(s, b) {
                None => None,
                Some(c) => spec_skip_exp(s, c),
            }
        }
    }
}

proof fn lemma_number_adv(s: Seq<u8>, i: int)
    requires
        0 <= i <= s.len(),
        spec_skip_number(s, i) is Some,
    ensures
        i < spec_skip_number(s, i).unwrap() <= s.len(),
{
    let a = if s[i] == '-' as u8 {
        i + 1
    } else {
        i
    };
    lemma_skip_digits_bounds(s, a + 1);
    lemma_skip_digits_bounds(s, a);
    let b = if s[a] == '0' as u8 {
        a + 1
    } else {
        spec_skip_digits(s, a)
    };
    assert(b > a);
    if 0 <= b < s.len() && s[b] == '.' as u8 {
        lemma_skip_digits_bounds(s, b + 1);
    }
    let c = spec_skip_frac(s, b).unwrap();
    if 0 <= c < s.len() && (s[c] == 'e' as u8 || s[c] == 'E' as u8) {
        lemma_skip_digits_bounds(s, c + 1);
        lemma_skip_digits_bounds(s, c + 2);
    }
}

/// Where the scanner that passes over an unknown field's value stands:
/// before a value, before a value or `]`, before a key or `}`, before
/// a key, before a `:`, or after a complete value.
#[derive(Clone, Copy)]
pub enum SkipState {
    Value,
    ValueOrClose,
    KeyOrClose,
    Key,
    Colon,
    After,
}

/// Passes over one complete JSON value, validating its structure:
/// `stack` holds the brackets still open, and the scan ends just after
/// the value once the stack is empty again.  Used for the value of an
/// unknown field, whose content does not matter.
pub open spec fn spec_skip(s: Seq<u8>, i: int, stack: Seq<u8>, st: SkipState) -> Option<int>
    decreases s.len() - i, 1int,
        when 0 <= i <= s.len()
        via spec_skip_decreases
{
    let j = spec_skip_ws(s, i);
    match st {
        SkipState::Value => spec_skip_value_at(s, j, stack),
        SkipState::ValueOrClose => {
            if j < s.len() && s[j] == ']' as u8 {
                spec_skip(s, j + 1, stack.drop_last(), SkipState::After)
            } else {
                spec_skip_value_at(s, j, stack)
            }
        },
        SkipState::KeyOrClose => {
            if j < s.len() && s[j] == '}' as u8 {
                spec_skip(s, j + 1, stack.drop_last(), SkipState::After)
            } else {
                match spec_string(s, j) {
                    None => None,
                    Some((k, m)) => spec_skip(s, m, stack, SkipState::Colon),
                }
            }
        },
        SkipState::Key => {
            match spec_string(s, j) {
                None => None,
                Some((k, m)) => spec_skip(s, m, stack, SkipState::Colon),
            }
        },
        SkipState::Colon => {
            if j < s.len() && s[j] == ':' as u8 {
                spec_skip(s, j + 1, stack, SkipState::Value)
            } else {
                None
            }
        },
        SkipState::After => {
            if stack.len() == 0 {
                Some(j)
            } else if j >= s.len() {
                None
            } else if stack.last() == '[' as u8 {
                if s[j] == ',' as u8 {
                    spec_skip(s, j + 1, stack, SkipState::Value)
                } else if s[j] == ']' as u8 {
                    spec_skip(s, j + 1, stack.drop_last(), SkipState::After)
                } else {
                    None
                }
            } else {
                if s[j] == ',' as u8 {
                    spec_skip(s, j + 1, stack, SkipState::Key)
                } else if s[j] == '}' as u8 {
                    spec_skip(s, j + 1, stack.drop_last(), SkipState::After)
                } else {
                    None
                }
            }
        },
    }
}

/// One value whose first byte stands at `j`: a string, array, object,
/// `true`, `false`, `null`, or a number.
pub open spec fn spec_skip_value_at(s: Seq<u8>, j: int, stack: Seq<u8>) -> Option<int>
    decreases s.len() - j, 0int,
        when 0 <= j <= s.len()
        via spec_skip_value_at_decreases
{
    if j >= s.len() {
        None
    } else if s[j] == '"' as u8 {
        match spec_string(s, j) {
            None => None,
            Some((v, m)) => spec_skip(s, m, stack, SkipState::After),
        }
    } else if s[j] == '[' as u8 {
        spec_skip(s, j + 1, stack.push('[' as u8), SkipState::ValueOrClose)
    } else if s[j] == '{' as u8 {
        spec_skip(s, j + 1, stack.push('{' as u8), SkipState::KeyOrClose)
    } else if s[j] == 't' as u8 {
        if j + 4 <= s.len() && s[j + 1] == 'r' as u8 && s[j + 2] == 'u' as u8 && s[j + 3]
            == 'e' as u8 {
            spec_skip(s, j + 4, stack, SkipState::After)
        } else {
            None
        }
    } else if s[j] == 'f' as u8 {
        if j + 5 <= s.len() && s[j + 1] == 'a' as u8 && s[j + 2] == 'l' as u8 && s[j + 3]
            == 's' as u8 && s[j + 4] == 'e' as u8 {
            spec_skip(s, j + 5, stack, SkipState::After)
        } else {
            None
        }
    } else if s[j] == 'n' as u8 {
        if j + 4 <= s.len() && s[j + 1] == 'u' as u8 && s[j + 2] == 'l' as u8 && s[j + 3]
            == 'l' as u8 {
            spec_skip(s, j + 4, stack, SkipState::After)
        } else {
            None
        }
    } else {
        match spec_skip_number(s, j) {
            None => None,
            Some(m) => spec_skip(s, m, stack, SkipState::After),
        }
    }
}

#[via_fn]
proof fn spec_skip_decreases(s: Seq<u8>, i: int, stack: Seq<u8>, st: SkipState) {
    lemma_skip_ws_bounds(s, i);
    let j = spec_skip_ws(s, i);
    match st {
        SkipState::KeyOrClose | SkipState::Key => {
            if spec_string(s, j) is Some {
                lemma_string_adv(s, j);
            }
        },
        _ => {},
    }
}

#[via_fn]
proof fn spec_skip_value_at_decreases(s: Seq<u8>, j: int, stack: Seq<u8>) {
    if j < s.len() {
        if s[j] == '"' as u8 {
            if spec_string(s, j) is Some {
                lemma_string_adv(s, j);
            }
        } else if s[j] == '[' as u8 || s[j] == '{' as u8 || s[j] == 't' as u8 || s[j] == 'f' as u8
            || s[j] == 'n' as u8 {
        } else {
            if spec_skip_number(s, j) is Some {
                lemma_number_adv(s, j);
            }
        }
    }
}

proof fn lemma_skip_adv(s: Seq<u8>, i: int, stack: Seq<u8>, st: SkipState)
    requires
        0 <= i <= s.len(),
        spec_skip(s, i, stack, st) is Some,
    ensures
        i <= spec_skip(s, i, stack, st).unwrap() <= s.len(),
        !(st is After) ==> i < spec_skip(s, i, stack, st).unwrap(),
    decreases s.len() - i, 1int,
{
    lemma_skip_ws_bounds(s, i);
    let j = spec_skip_ws(s, i);
    match st {
        SkipState::Value => {
            lemma_skip_value_at_adv(s, j, stack);
        },
        SkipState::ValueOrClose => {
            if j < s.len() && s[j] == ']' as u8 {
                lemma_skip_adv(s, j + 1, stack.drop_last(), SkipState::After);
            } else {
                lemma_skip_value_at_adv(s, j, stack);
            }
        },
        SkipState::KeyOrClose => {
            if j < s.len() && s[j] == '}' as u8 {
                lemma_skip_adv(s, j + 1, stack.drop_last(), SkipState::After);
            } else {
                lemma_string_adv(s, j);
                let m = spec_string(s, j).unwrap().1;
                lemma_skip_adv(s, m, stack, SkipState::Colon);
            }
        },
        SkipState::Key => {
            lemma_string_adv(s, j);
            let m = spec_string(s, j).unwrap().1;
            lemma_skip_adv(s, m, stack, SkipState::Colon);
        },
        SkipState::Colon => {
            lemma_skip_adv(s, j + 1, stack, SkipState::Value);
        },
        SkipState::After => {
            if stack.len() == 0 {
            } else if stack.last() == '[' as u8 {
                if s[j] == ',' as u8 {
                    lemma_skip_adv(s, j + 1, stack, SkipState::Value);
                } else {
                    lemma_skip_adv(s, j + 1, stack.drop_last(), SkipState::After);
                }
            } else {
                if s[j] == ',' as u8 {
                    lemma_skip_adv(s, j + 1, stack, SkipState::Key);
                } else {
                    lemma_skip_adv(s, j + 1, stack.drop_last(), SkipState::After);
                }
            }
        },
    }
}

proof fn lemma_skip_value_at_adv(s: Seq<u8>, j: int, stack: Seq<u8>)
    requires
        0 <= j <= s.len(),
        spec_skip_value_at(s, j, stack) is Some,
    ensures
        j < spec_skip_value_at(s, j, stack).unwrap() <= s.len(),
    decreases s.len() - j, 0int,
{
    if s[j] == '"' as u8 {
        lemma_string_adv(s, j);
        let m = spec_string(s, j).unwrap().1;
        lemma_skip_adv(s, m, stack, SkipState::After);
    } else if s[j] == '[' as u8 {
        lemma_skip_adv(s, j + 1, stack.push('[' as u8), SkipState::ValueOrClose);
    } else if s[j] == '{' as u8 {
        lemma_skip_adv(s, j + 1, stack.push('{' as u8), SkipState::KeyOrClose);
    } else if s[j] == 't' as u8 {
        lemma_skip_adv(s, j + 4, stack, SkipState::After);
    } else if s[j] == 'f' as u8 {
        lemma_skip_adv(s, j + 5, stack, SkipState::After);
    } else if s[j] == 'n' as u8 {
        lemma_skip_adv(s, j + 4, stack, SkipState::After);
    } else {
        lemma_number_adv(s, j);
        let m = spec_skip_number(s, j).unwrap();
        lemma_skip_adv(s, m, stack, SkipState::After);
    }
}

/// One field of an image object, starting at its key (just after `{`
/// or a comma): `"image"` takes a string, `"versions"` and
/// `"platforms"` take string arrays.  A repeated or unknown key
/// rejects the object.  The `image`, `versions` and `platforms`
/// arguments carry the fields already seen.
pub open spec fn spec_image_fields(
    s: Seq<u8>,
    i: int,
    image: Option<Seq<u8>>,
    versions: Option<Seq<Seq<u8>>>,
    platforms: Option<Seq<Seq<u8>>>,
) -> Option<(ImageModel, int)>
    decreases s.len() - i,
        when 0 <= i <= s.len()
        via spec_image_fields_decreases
{
    let j = spec_skip_ws(s, i);
    match spec_string(s, j) {
        None => None,
        Some((k, m)) => {
            let n = spec_skip_ws(s, m);
            if n >= s.len() || s[n] != ':' as u8 {
                None
            } else {
                let p = spec_skip_ws(s, n + 1);
                if k == lit("image"@) {
                    if image is Some {
                        None
                    } else {
                        match spec_string(s, p) {
                            None => None,
                            Some((v, q)) => spec_image_more(s, q, Some(v), versions, platforms),
                        }
                    }
                } else if k == lit("versions"@) {
                    if versions is Some {
                        None
                    } else {
                        match spec_strings(s, p) {
                            None => None,
                            Some((v, q)) => spec_image_more(s, q, image, Some(v), platforms),
                        }
                    }
                } else if k == lit("platforms"@) {
                    if platforms is Some {
                        None
                    } else {
                        match spec_strings(s, p) {
                            None => None,
                            Some((v, q)) => spec_image_more(s, q, image, versions, Some(v)),
                        }
                    }
                } else {
                    match spec_skip(s, p, Seq::empty(), SkipState::Value) {
                        None => None,
                        Some(q) => spec_image_more(s, q, image, versions, platforms),
                    }
                }
            }
        },
    }
}

/// After one field of an image object: a comma introduces the next
/// field, and `}` closes the object, which must by then have its
/// `image` and `versions` fields.
pub open spec fn spec_image_more(
    s: Seq<u8>,
    i: int,
    image: Option<Seq<u8>>,
    versions: Option<Seq<Seq<u8>>>,
    platforms: Option<Seq<Seq<u8>>>,
) -> Option<(ImageModel, int)>
    decreases s.len() - i,
        when 0 <= i <= s.len()
        via spec_image_more_decreases
{
    let j = spec_skip_ws(s, i);
    if j >= s.len() {
        None
    } else if s[j] == ',' as u8 {
        spec_image_fields(s, j + 1, image, versions, platforms)
    } else if s[j] == '}' as u8 {
        match (image, versions) {
            (Some(im), Some(vs)) => Some(
                (ImageModel { image: im, versions: vs, platforms }, j + 1),
            ),
            _ => None,
        }
    } else {
        None
    }
}

#[via_fn]
proof fn spec_image_fields_decreases(
    s: Seq<u8>,
    i: int,
    image: Option<Seq<u8>>,
    versions: Option<Seq<Seq<u8>>>,
    platforms: Option<Seq<Seq<u8>>>,
) {
    lemma_skip_ws_bounds(s, i);
    let j = spec_skip_ws(s, i);
    if spec_string(s, j) is Some {
        lemma_string_adv(s, j);
        let m = spec_string(s, j).unwrap().1;
        lemma_skip_ws_bounds(s, m);
        let n = spec_skip_ws(s, m);
        if n < s.len() && s[n] == ':' as u8 {
            lemma_skip_ws_bounds(s, n + 1);
            let p = spec_skip_ws(s, n + 1);
            if spec_string(s, p) is Some {
                lemma_string_adv(s, p);
            }
            if spec_strings(s, p) is Some {
                lemma_strings_adv(s, p);
            }
            if spec_skip(s, p, Seq::empty(), SkipState::Value) is Some {
                lemma_skip_adv(s, p, Seq::empty(), SkipState::Value);
            }
        }
    }
}

#[via_fn]
proof fn spec_image_more_decreases(
    s: Seq<u8>,
    i: int,
    image: Option<Seq<u8>>,
    versions: Option<Seq<Seq<u8>>>,
    platforms: Option<Seq<Seq<u8>>>,
) {
    lemma_skip_ws_bounds(s, i);
}

proof fn lemma_image_fields_adv(
    s: Seq<u8>,
    i: int,
    image: Option<Seq<u8>>,
    versions: Option<Seq<Seq<u8>>>,
    platforms: Option<Seq<Seq<u8>>>,
)
    requires
        0 <= i <= s.len(),
        spec_image_fields(s, i, image, versions, platforms) is Some,
    ensures
        i < spec_image_fields(s, i, image, versions, platforms).unwrap().1 <= s.len(),
    decreases s.len() - i,
{
    lemma_skip_ws_bounds(s, i);
    let j = spec_skip_ws(s, i);
    lemma_string_adv(s, j);
    let m = spec_string(s, j).unwrap().1;
    lemma_skip_ws_bounds(s, m);
    let n = spec_skip_ws(s, m);
    lemma_skip_ws_bounds(s, n + 1);
    let p = spec_skip_ws(s, n + 1);
    let k = spec_string(s, j).unwrap().0;
    if k == lit("image"@) {
        lemma_string_adv(s, p);
        let q = spec_string(s, p).unwrap().1;
        lemma_image_more_adv(s, q, Some(spec_string(s, p).unwrap().0), versions, platforms);
    } else if k == lit("versions"@) {
        lemma_strings_adv(s, p);
        let q = spec_strings(s, p).unwrap().1;
        lemma_image_more_adv(s, q, image, Some(spec_strings(s, p).unwrap().0), platforms);
    } else if k == lit("platforms"@) {
        lemma_strings_adv(s, p);
        let q = spec_strings(s, p).unwrap().1;
        lemma_image_more_adv(s, q, image, versions, Some(spec_strings(s, p).unwrap().0));
    } else {
        lemma_skip_adv(s, p, Seq::empty(), SkipState::Value);
        let q = spec_skip(s, p, Seq::empty(), SkipState::Value).unwrap();
        lemma_image_more_adv(s, q, image, versions, platforms);
    }
}

proof fn lemma_image_more_adv(
    s: Seq<u8>,
    i: int,
    image: Option<Seq<u8>>,
    versions: Option<Seq<Seq<u8>>>,
    platforms: Option<Seq<Seq<u8>>>,
)
    requires
        0 <= i <= s.len(),
        spec_image_more(s, i, image, versions, platforms) is Some,
    ensures
        i < spec_image_more(s, i, image, versions, platforms).unwrap().1 <= s.len(),
    decreases s.len() - i,
{
    lemma_skip_ws_bounds(s, i);
    let j = spec_skip_ws(s, i);
    if s[j] == ',' as u8 {
        lemma_image_fields_adv(s, j + 1, image, versions, platforms);
    }
}

/// An image object starting at `{`.
pub open spec fn spec_image(s: Seq<u8>, i: int) -> Option<(ImageModel, int)> {
    if 0 <= i < s.len() && s[i] == '{' as u8 {
        spec_image_fields(s, i + 1, None, None, None)
    } else {
        None
    }
}

proof fn lemma_image_adv(s: Seq<u8>, i: int)
    requires
        0 <= i <= s.len(),
        spec_image(s, i) is Some,
    ensures
        i < spec_image(s, i).unwrap().1 <= s.len(),
{
    lemma_image_fields_adv(s, i + 1, None, None, None);
}

/// How an image-list result relates to the same result with `e`
/// prepended.
pub open spec fn prepend_image(e: ImageModel, r: Option<(Seq<ImageModel>, int)>) -> Option<
    (Seq<ImageModel>, int),
> {
    match r {
        None => None,
        Some((v, j)) => Some((seq![e] + v, j)),
    }
}

/// The rest of an image array, after one element.
pub open spec fn spec_images_rest(s: Seq<u8>, i: int) -> Option<(Seq<ImageModel>, int)>
    decreases s.len() - i,
        when 0 <= i <= s.len()
        via spec_images_rest_decreases
{
    let j = spec_skip_ws(s, i);
    if j >= s.len() {
        None
    } else if s[j] == ']' as u8 {
        Some((Seq::empty(), j + 1))
    } else if s[j] == ',' as u8 {
        let k = spec_skip_ws(s, j + 1);
        match spec_image(s, k) {
            None => None,
            Some((e, m)) => prepend_image(e, spec_images_rest(s, m)),
        }
    } else {
        None
    }
}

#[via_fn]
proof fn spec_images_rest_decreases(s: Seq<u8>, i: int) {
    lemma_skip_ws_bounds(s, i);
    let j = spec_skip_ws(s, i);
    if j < s.len() && s[j] == ',' as u8 {
        lemma_skip_ws_bounds(s, j + 1);
        let k = spec_skip_ws(s, j + 1);
        if spec_image(s, k) is Some {
            lemma_image_adv(s, k);
        }
    }
}

/// An image array starting at `[`: zero or more image objects,
/// comma-separated, in brackets.
pub open spec fn spec_images(s: Seq<u8>, i: int) -> Option<(Seq<ImageModel>, int)> {
    if 0 <= i < s.len() && s[i] == '[' as u8 {
        let j = spec_skip_ws(s, i + 1);
        if j < s.len() && s[j] == ']' as u8 {
            Some((Seq::empty(), j + 1))
        } else {
            match spec_image(s, j) {
                None => None,
                Some((e, m)) => prepend_image(e, spec_images_rest(s, m)),
            }
        }
    } else {
        None
    }
}

proof fn lemma_images_rest_adv(s: Seq<u8>, i: int)
    requires
        0 <= i <= s.len(),
        spec_images_rest(s, i) is Some,
    ensures
        i < spec_images_rest(s, i).unwrap().1 <= s.len(),
    decreases s.len() - i,
{
    lemma_skip_ws_bounds(s, i);
    let j = spec_skip_ws(s, i);
    if j < s.len() && s[j] == ',' as u8 {
        lemma_skip_ws_bounds(s, j + 1);
        let k = spec_skip_ws(s, j + 1);
        lemma_image_adv(s, k);
        let m = spec_image(s, k).unwrap().1;
        lemma_images_rest_adv(s, m);
    }
}

proof fn lemma_images_adv(s: Seq<u8>, i: int)
    requires
        0 <= i <= s.len(),
        spec_images(s, i) is Some,
    ensures
        i < spec_images(s, i).unwrap().1 <= s.len(),
{
    let j = spec_skip_ws(s, i + 1);
    lemma_skip_ws_bounds(s, i + 1);
    if !(j < s.len() && s[j] == ']' as u8) {
        lemma_image_adv(s, j);
        let m = spec_image(s, j).unwrap().1;
        lemma_images_rest_adv(s, m);
    }
}

/// Skips decimal digits starting at `i`.
fn skip_digits(s: &Vec<u8>, i: usize) -> (r: usize)
    requires
        i <= s@.len(),
    ensures
        r == spec_skip_digits(s@, i as int),
        i <= r <= s@.len(),
    decreases s@.len() - i,
{
    if i < s.len() {
        let b = s[i];
        if '0' as u8 <= b && b <= '9' as u8 {
            return skip_digits(s, i + 1);
        }
    }
    i
}

/// Passes over a number starting at `i`.
fn skip_number(s: &Vec<u8>, i: usize) -> (r: Option<usize>)
    requires
        i <= s@.len(),
    ensures
        match r {
            Some(m) => spec_skip_number(s@, i as int) == Some(m as int) && m <= s@.len(),
            None => spec_skip_number(s@, i as int) is None,
        },
{
    if i >= s.len() {
        return None;
    }
    let a = if s[i] == '-' as u8 {
        i + 1
    } else {
        i
    };
    if !(a < s.len() && '0' as u8 <= s[a] && s[a] <= '9' as u8) {
        return None;
    }
    let b = if s[a] == '0' as u8 {
        a + 1
    } else {
        skip_digits(s, a)
    };
    let c: usize;
    if b < s.len() && s[b] == '.' as u8 {
        if b + 1 < s.len() && '0' as u8 <= s[b + 1] && s[b + 1] <= '9' as u8 {
            c = skip_digits(s, b + 1);
        } else {
            return None;
        }
    } else {
        c = b;
    }
    if c < s.len() && (s[c] == 'e' as u8 || s[c] == 'E' as u8) {
        let j = if c + 1 < s.len() && (s[c + 1] == '+' as u8 || s[c + 1] == '-' as u8) {
            c + 2
        } else {
            c + 1
        };
        if j < s.len() && '0' as u8 <= s[j] && s[j] <= '9' as u8 {
            Some(skip_digits(s, j))
        } else {
            None
        }
    } else {
        Some(c)
    }
}

/// Passes over one complete JSON value starting at `i`, in whatever
/// form, validating its structure.
#[verifier::rlimit(60)]
fn skip_value(s: &Vec<u8>, i: usize) -> (r: Option<usize>)
    requires
        i <= s@.len(),
    ensures
        match r {
            Some(q) => spec_skip(s@, i as int, Seq::empty(), SkipState::Value) == Some(q as int)
                && i < q <= s@.len(),
            None => spec_skip(s@, i as int, Seq::empty(), SkipState::Value) is None,
        },
{
    let mut cur: usize = i;
    let mut stack: Vec<u8> = Vec::new();
    let mut st = SkipState::Value;
    proof {
        assert(stack@ =~= Seq::<u8>::empty());
    }
    loop
        invariant
            i <= s@.len(),
            cur <= s@.len(),
            spec_skip(s@, i as int, Seq::empty(), SkipState::Value) == spec_skip(
                s@,
                cur as int,
                stack@,
                st,
            ),
            (st is ValueOrClose || st is KeyOrClose) ==> stack@.len() > 0,
        decreases s@.len() - cur,
    {
        let j = skip_ws(s, cur);
        match st {
            SkipState::Value | SkipState::ValueOrClose => {
                let mut closed = false;
                match st {
                    SkipState::ValueOrClose => {
                        if j < s.len() && s[j] == ']' as u8 {
                            stack.pop();
                            st = SkipState::After;
                            cur = j + 1;
                            closed = true;
                        }
                    },
                    _ => {},
                }
                if !closed {
                    proof {
                        assert(spec_skip(s@, cur as int, stack@, st) == spec_skip_value_at(
                            s@,
                            j as int,
                            stack@,
                        ));
                    }
                    if j >= s.len() {
                        return None;
                    }
                    let b = s[j];
                    if b == '"' as u8 {
                        match parse_string(s, j) {
                            None => {
                                return None;
                            },
                            Some((v, m)) => {
                                proof {
                                    lemma_string_adv(s@, j as int);
                                }
                                st = SkipState::After;
                                cur = m;
                            },
                        }
                    } else if b == '[' as u8 {
                        stack.push('[' as u8);
                        st = SkipState::ValueOrClose;
                        cur = j + 1;
                    } else if b == '{' as u8 {
                        stack.push('{' as u8);
                        st = SkipState::KeyOrClose;
                        cur = j + 1;
                    } else if b == 't' as u8 {
                        if !(s.len() - j >= 4 && s[j + 1] == 'r' as u8 && s[j + 2] == 'u' as u8 && s[j
                            + 3] == 'e' as u8) {
                            return None;
                        }
                        st = SkipState::After;
                        cur = j + 4;
                    } else if b == 'f' as u8 {
                        if !(s.len() - j >= 5 && s[j + 1] == 'a' as u8 && s[j + 2] == 'l' as u8 && s[j
                            + 3] == 's' as u8 && s[j + 4] == 'e' as u8) {
                            return None;
                        }
                        st = SkipState::After;
                        cur = j + 5;
                    } else if b == 'n' as u8 {
                        if !(s.len() - j >= 4 && s[j + 1] == 'u' as u8 && s[j + 2] == 'l' as u8 && s[j
                            + 3] == 'l' as u8) {
                            return None;
                        }
                        st = SkipState::After;
                        cur = j + 4;
                    } else {
                        match skip_number(s, j) {
                            None => {
                                return None;
                            },
                            Some(m) => {
                                proof {
                                    lemma_number_adv(s@, j as int);
                                }
                                st = SkipState::After;
                                cur = m;
                            },
                        }
                    }
                }
            },
            SkipState::KeyOrClose | SkipState::Key => {
                let mut closed = false;
                match st {
                    SkipState::KeyOrClose => {
                        if j < s.len() && s[j] == '}' as u8 {
                            stack.pop();
                            st = SkipState::After;
                            cur = j + 1;
                            closed = true;
                        }
                    },
                    _ => {},
                }
                if !closed {
                    match parse_string(s, j) {
                        None => {
                            return None;
                        },
                        Some((k, m)) => {
                            proof {
                                lemma_string_adv(s@, j as int);
                            }
                            st = SkipState::Colon;
                            cur = m;
                        },
                    }
                }
            },
            SkipState::Colon => {
                if !(j < s.len() && s[j] == ':' as u8) {
                    return None;
                }
                st = SkipState::Value;
                cur = j + 1;
            },
            SkipState::After => {
                if stack.len() == 0 {
                    proof {
                        lemma_skip_adv(s@, i as int, Seq::empty(), SkipState::Value);
                    }
                    return Some(j);
                }
                if j >= s.len() {
                    return None;
                }
                let top = stack[stack.len() - 1];
                let b = s[j];
                if top == '[' as u8 {
                    if b == ',' as u8 {
                        st = SkipState::Value;
                        cur = j + 1;
                    } else if b == ']' as u8 {
                        stack.pop();
                        cur = j + 1;
                    } else {
                        return None;
                    }
                } else {
                    if b == ',' as u8 {
                        st = SkipState::Key;
                        cur = j + 1;
                    } else if b == '}' as u8 {
                        stack.pop();
                        cur = j + 1;
                    } else {
                        return None;
                    }
                }
            },
        }
    }
}

/// Matches an executable image-parse result against the grammar's.
pub open spec fn img_res_match(r: Option<(Image, usize)>, sr: Option<(ImageModel, int)>) -> bool {
    match (r, sr) {
        (Some(p), Some(sp)) => p.0.deep_view() == sp.0 && p.1 as int == sp.1,
        (None, None) => true,
        _ => false,
    }
}

/// Parses one field of an image object, starting at its key.
fn parse_image_fields(
    s: &Vec<u8>,
    i: usize,
    image: Option<Vec<u8>>,
    versions: Option<Vec<Vec<u8>>>,
    platforms: Option<Vec<Vec<u8>>>,
) -> (r: Option<(Image, usize)>)
    requires
        i <= s@.len(),
    ensures
        img_res_match(
            r,
            spec_image_fields(
                s@,
                i as int,
                image.deep_view(),
                versions.deep_view(),
                platforms.deep_view(),
            ),
        ),
    decreases s@.len() - i,
{
    let j = skip_ws(s, i);
    match parse_string(s, j) {
        None => None,
        Some((k, m)) => {
            proof {
                lemma_string_adv(s@, j as int);
            }
            let n = skip_ws(s, m);
            if n >= s.len() {
                return None;
            }
            if s[n] != ':' as u8 {
                return None;
            }
            let p = skip_ws(s, n + 1);
            if bytes_eq_lit(&k, "image") {
                if image.is_some() {
                    return None;
                }
                match parse_string(s, p) {
                    None => None,
                    Some((v, q)) => {
                        proof {
                            lemma_string_adv(s@, p as int);
                            assert(v.deep_view() =~= v@);
                        }
                        parse_image_more(s, q, Some(v), versions, platforms)
                    },
                }
            } else if bytes_eq_lit(&k, "versions") {
                if versions.is_some() {
                    return None;
                }
                match parse_strings(s, p) {
                    None => None,
                    Some((v, q)) => {
                        proof {
                            lemma_strings_adv(s@, p as int);
                        }
                        parse_image_more(s, q, image, Some(v), platforms)
                    },
                }
            } else if bytes_eq_lit(&k, "platforms") {
                if platforms.is_some() {
                    return None;
                }
                match parse_strings(s, p) {
                    None => None,
                    Some((v, q)) => {
                        proof {
                            lemma_strings_adv(s@, p as int);
                        }
                        parse_image_more(s, q, image, versions, Some(v))
                    },
                }
            } else {
                match skip_value(s, p) {
                    None => None,
                    Some(q) => parse_image_more(s, q, image, versions, platforms),
                }
            }
        },
    }
}

/// Parses what follows one field of an image object.
fn parse_image_more(
    s: &Vec<u8>,
    i: usize,
    image: Option<Vec<u8>>,
    versions: Option<Vec<Vec<u8>>>,
    platforms: Option<Vec<Vec<u8>>>,
) -> (r: Option<(Image, usize)>)
    requires
        i <= s@.len(),
    ensures
        img_res_match(
            r,
            spec_image_more(
                s@,
                i as int,
                image.deep_view(),
                versions.deep_view(),
                platforms.deep_view(),
            ),
        ),
    decreases s@.len() - i,
{
    let j = skip_ws(s, i);
    if j >= s.len() {
        return None;
    }
    let b = s[j];
    if b == ',' as u8 {
        parse_image_fields(s, j + 1, image, versions, platforms)
    } else if b == '}' as u8 {
        match (image, versions) {
            (Some(im), Some(vs)) => {
                let img = Image { image: im, versions: vs, platforms };
                Some((img, j + 1))
            },
            _ => None,
        }
    } else {
        None
    }
}

/// Parses an image object starting at `{`.
fn parse_image(s: &Vec<u8>, i: usize) -> (r: Option<(Image, usize)>)
    requires
        i <= s@.len(),
    ensures
        img_res_match(r, spec_image(s@, i as int)),
{
    if i < s.len() {
        let b = s[i];
        if b == '{' as u8 {
            return parse_image_fields(s, i + 1, None, None, None);
        }
    }
    None
}

/// Matches an executable image-array result against the grammar's.
pub open spec fn imgs_res_match(
    r: Option<(Vec<Image>, usize)>,
    sr: Option<(Seq<ImageModel>, int)>,
) -> bool {
    match (r, sr) {
        (Some(p), Some(sp)) => p.0.deep_view() == sp.0 && p.1 as int == sp.1,
        (None, None) => true,
        _ => false,
    }
}

/// Parses the rest of an image array, after one element.
fn parse_images_rest(s: &Vec<u8>, i: usize) -> (r: Option<(Vec<Image>, usize)>)
    requires
        i <= s@.len(),
    ensures
        imgs_res_match(r, spec_images_rest(s@, i as int)),
    decreases s@.len() - i,
{
    let j = skip_ws(s, i);
    if j >= s.len() {
        return None;
    }
    let b = s[j];
    if b == ']' as u8 {
        let v: Vec<Image> = Vec::new();
        proof {
            assert(v.deep_view() =~= Seq::<ImageModel>::empty());
        }
        Some((v, j + 1))
    } else if b == ',' as u8 {
        let k = skip_ws(s, j + 1);
        match parse_image(s, k) {
            None => None,
            Some((e, m)) => {
                proof {
                    lemma_image_adv(s@, k as int);
                }
                match parse_images_rest(s, m) {
                    None => None,
                    Some(rest_end) => {
                        let (mut rest, end) = rest_end;
                        let ghost r0 = rest.deep_view();
                        rest.insert(0, e);
                        proof {
                            assert(rest.deep_view() =~~= seq![e.deep_view()] + r0);
                        }
                        Some((rest, end))
                    },
                }
            },
        }
    } else {
        None
    }
}

/// Parses an image array starting at `[`.
fn parse_images(s: &Vec<u8>, i: usize) -> (r: Option<(Vec<Image>, usize)>)
    requires
        i <= s@.len(),
    ensures
        imgs_res_match(r, spec_images(s@, i as int)),
{
    if !(i < s.len()) {
        return None;
    }
    if s[i] != '[' as u8 {
        return None;
    }
    let j = skip_ws(s, i + 1);
    if j < s.len() && s[j] == ']' as u8 {
        let v: Vec<Image> = Vec::new();
        proof {
            assert(v.deep_view() =~= Seq::<ImageModel>::empty());
        }
        return Some((v, j + 1));
    }
    match parse_image(s, j) {
        None => None,
        Some((e, m)) => {
            proof {
                lemma_image_adv(s@, j as int);
            }
            match parse_images_rest(s, m) {
                None => None,
                Some(rest_end) => {
                    let (mut rest, end) = rest_end;
                    let ghost r0 = rest.deep_view();
                    rest.insert(0, e);
                    proof {
                        assert(rest.deep_view() =~~= seq![e.deep_view()] + r0);
                    }
                    Some((rest, end))
                },
            }
        },
    }
}

/// One field of the configuration object, starting at its key:
/// `"source"` and `"destination"` take strings, `"platforms"` a string
/// array, and `"images"` an image array.  A repeated or unknown key
/// rejects the document.
pub open spec fn spec_config_fields(
    s: Seq<u8>,
    i: int,
    source: Option<Seq<u8>>,
    destination: Option<Seq<u8>>,
    platforms: Option<Seq<Seq<u8>>>,
    images: Option<Seq<ImageModel>>,
) -> Option<(ConfigModel, int)>
    decreases s.len() - i,
        when 0 <= i <= s.len()
        via spec_config_fields_decreases
{
    let j = spec_skip_ws(s, i);
    match spec_string(s, j) {
        None => None,
        Some((k, m)) => {
            let n = spec_skip_ws(s, m);
            if n >= s.len() || s[n] != ':' as u8 {
                None
            } else {
                let p = spec_skip_ws(s, n + 1);
                if k == lit("source"@) {
                    if source is Some {
                        None
                    } else {
                        match spec_string(s, p) {
                            None => None,
                            Some((v, q)) => spec_config_more(
                                s,
                                q,
                                Some(v),
                                destination,
                                platforms,
                                images,
                            ),
                        }
                    }
                } else if k == lit("destination"@) {
                    if destination is Some {
                        None
                    } else {
                        match spec_string(s, p) {
                            None => None,
                            Some((v, q)) => spec_config_more(s, q, source, Some(v), platforms, images),
                        }
                    }
                } else if k == lit("platforms"@) {
                    if platforms is Some {
                        None
                    } else {
                        match spec_strings(s, p) {
                            None => None,
                            Some((v, q)) => spec_config_more(s, q, source, destination, Some(v), images),
                        }
                    }
                } else if k == lit("images"@) {
                    if images is Some {
                        None
                    } else {
                        match spec_images(s, p) {
                            None => None,
                            Some((v, q)) => spec_config_more(s, q, source, destination, platforms, Some(v)),
                        }
                    }
                } else {
                    match spec_skip(s, p, Seq::empty(), SkipState::Value) {
                        None => None,
                        Some(q) => spec_config_more(s, q, source, destination, platforms, images),
                    }
                }
            }
        },
    }
}

/// After one field of the configuration object: a comma introduces the
/// next field, and `}` closes the object, which must by then have its
/// `source`, `destination` and `images` fields.
pub open spec fn spec_config_more(
    s: Seq<u8>,
    i: int,
    source: Option<Seq<u8>>,
    destination: Option<Seq<u8>>,
    platforms: Option<Seq<Seq<u8>>>,
    images: Option<Seq<ImageModel>>,
) -> Option<(ConfigModel, int)>
    decreases s.len() - i,
        when 0 <= i <= s.len()
        via spec_config_more_decreases
{
    let j = spec_skip_ws(s, i);
    if j >= s.len() {
        None
    } else if s[j] == ',' as u8 {
        spec_config_fields(s, j + 1, source, destination, platforms, images)
    } else if s[j] == '}' as u8 {
        match (source, destination, images) {
            (Some(src), Some(dst), Some(imgs)) => Some(
                (ConfigModel { source: src, destination: dst, platforms, images: imgs }, j + 1),
            ),
            _ => None,
        }
    } else {
        None
    }
}

#[via_fn]
proof fn spec_config_fields_decreases(
    s: Seq<u8>,
    i: int,
    source: Option<Seq<u8>>,
    destination: Option<Seq<u8>>,
    platforms: Option<Seq<Seq<u8>>>,
    images: Option<Seq<ImageModel>>,
) {
    lemma_skip_ws_bounds(s, i);
    let j = spec_skip_ws(s, i);
    if spec_string(s, j) is Some {
        lemma_string_adv(s, j);
        let m = spec_string(s, j).unwrap().1;
        lemma_skip_ws_bounds(s, m);
        let n = spec_skip_ws(s, m);
        if n < s.len() && s[n] == ':' as u8 {
            lemma_skip_ws_bounds(s, n + 1);
            let p = spec_skip_ws(s, n + 1);
            if spec_string(s, p) is Some {
                lemma_string_adv(s, p);
            }
            if spec_strings(s, p) is Some {
                lemma_strings_adv(s, p);
            }
            if spec_images(s, p) is Some {
                lemma_images_adv(s, p);
            }
            if spec_skip(s, p, Seq::empty(), SkipState::Value) is Some {
                lemma_skip_adv(s, p, Seq::empty(), SkipState::Value);
            }
        }
    }
}

#[via_fn]
proof fn spec_config_more_decreases(
    s: Seq<u8>,
    i: int,
    source: Option<Seq<u8>>,
    destination: Option<Seq<u8>>,
    platforms: Option<Seq<Seq<u8>>>,
    images: Option<Seq<ImageModel>>,
) {
    lemma_skip_ws_bounds(s, i);
}

proof fn lemma_config_fields_adv(
    s: Seq<u8>,
    i: int,
    source: Option<Seq<u8>>,
    destination: Option<Seq<u8>>,
    platforms: Option<Seq<Seq<u8>>>,
    images: Option<Seq<ImageModel>>,
)
    requires
        0 <= i <= s.len(),
        spec_config_fields(s, i, source, destination, platforms, images) is Some,
    ensures
        i < spec_config_fields(s, i, source, destination, platforms, images).unwrap().1 <= s.len(),
    decreases s.len() - i,
{
    lemma_skip_ws_bounds(s, i);
    let j = spec_skip_ws(s, i);
    lemma_string_adv(s, j);
    let m = spec_string(s, j).unwrap().1;
    lemma_skip_ws_bounds(s, m);
    let n = spec_skip_ws(s, m);
    lemma_skip_ws_bounds(s, n + 1);
    let p = spec_skip_ws(s, n + 1);
    let k = spec_string(s, j).unwrap().0;
    if k == lit("source"@) {
        lemma_string_adv(s, p);
        let q = spec_string(s, p).unwrap().1;
        lemma_config_more_adv(
            s,
            q,
            Some(spec_string(s, p).unwrap().0),
            destination,
            platforms,
            images,
        );
    } else if k == lit("destination"@) {
        lemma_string_adv(s, p);
        let q = spec_string(s, p).unwrap().1;
        lemma_config_more_adv(s, q, source, Some(spec_string(s, p).unwrap().0), platforms, images);
    } else if k == lit("platforms"@) {
        lemma_strings_adv(s, p);
        let q = spec_strings(s, p).unwrap().1;
        lemma_config_more_adv(s, q, source, destination, Some(spec_strings(s, p).unwrap().0), images);
    } else if k == lit("images"@) {
        lemma_images_adv(s, p);
        let q = spec_images(s, p).unwrap().1;
        lemma_config_more_adv(s, q, source, destination, platforms, Some(spec_images(s, p).unwrap().0));
    } else {
        lemma_skip_adv(s, p, Seq::empty(), SkipState::Value);
        let q = spec_skip(s, p, Seq::empty(), SkipState::Value).unwrap();
        lemma_config_more_adv(s, q, source, destination, platforms, images);
    }
}

proof fn lemma_config_more_adv(
    s: Seq<u8>,
    i: int,
    source: Option<Seq<u8>>,
    destination: Option<Seq<u8>>,
    platforms: Option<Seq<Seq<u8>>>,
    images: Option<Seq<ImageModel>>,
)
    requires
        0 <= i <= s.len(),
        spec_config_more(s, i, source, destination, platforms, images) is Some,
    ensures
        i < spec_config_more(s, i, source, destination, platforms, images).unwrap().1 <= s.len(),
    decreases s.len() - i,
{
    lemma_skip_ws_bounds(s, i);
    let j = spec_skip_ws(s, i);
    if s[j] == ',' as u8 {
        lemma_config_fields_adv(s, j + 1, source, destination, platforms, images);
    }
}

proof fn lemma_config_adv(s: Seq<u8>, i: int)
    requires
        0 <= i <= s.len(),
        spec_config(s, i) is Some,
    ensures
        i < spec_config(s, i).unwrap().1 <= s.len(),
{
    lemma_config_fields_adv(s, i + 1, None, None, None, None);
}

/// The configuration object starting at `{`.
pub open spec fn spec_config(s: Seq<u8>, i: int) -> Option<(ConfigModel, int)> {
    if 0 <= i < s.len() && s[i] == '{' as u8 {
        spec_config_fields(s, i + 1, None, None, None, None)
    } else {
        None
    }
}

/// The grammar of the whole text: one configuration object,
/// surrounded only by whitespace.
pub open spec fn spec_config_text(s: Seq<u8>) -> Option<ConfigModel> {
    let i = spec_skip_ws(s, 0);
    match spec_config(s, i) {
        None => None,
        Some((c, j)) => if 0 <= j <= s.len() && spec_skip_ws(s, j) == s.len() {
            Some(c)
        } else {
            None
        },
    }
}

/// Whether `s` is a valid UTF-8 encoding, per [`vstd::utf8::valid_utf8`]:
/// well-formed leading and continuation bytes, no overlong encodings,
/// no surrogate code points.
#[verifier::rlimit(60)]
fn utf8_check(s: &Vec<u8>) -> (r: bool)
    ensures
        r == vstd::utf8::valid_utf8(s@),
{
    let mut i: usize = 0;
    proof {
        assert(s@.skip(0) =~= s@);
    }
    while i < s.len()
        invariant
            i <= s@.len(),
            vstd::utf8::valid_utf8(s@) == vstd::utf8::valid_utf8(s@.skip(i as int)),
        decreases s@.len() - i,
    {
        let ghost sub = s@.skip(i as int);
        proof {
            assert(sub[0] == s@[i as int]);
        }
        let b0 = s[i];
        let w: usize;
        if b0 <= 0x7f {
            proof {
                assert(b0 & 0x7F <= 0x7f) by (bit_vector);
            }
            w = 1;
        } else if 0xc0 <= b0 && b0 <= 0xdf {
            if s.len() - i < 2 {
                proof {
                    assert(!vstd::utf8::valid_first_scalar(sub));
                }
                return false;
            }
            let b1 = s[i + 1];
            proof {
                assert(sub[1] == s@[i + 1]);
            }
            if !(0x80 <= b1 && b1 <= 0xbf) {
                proof {
                    assert(!vstd::utf8::valid_first_scalar(sub));
                }
                return false;
            }
            let c: u32 = (((b0 & 0x1F) as u32) << 6u32) | ((b1 & 0x3f) as u32);
            if c < 0x80 {
                proof {
                    assert(vstd::utf8::decode_first_codepoint(sub) == c);
                    assert(!vstd::utf8::valid_first_scalar(sub));
                }
                return false;
            }
            proof {
                assert((((b0 & 0x1F) as u32) << 6u32) | ((b1 & 0x3f) as u32) <= 0x7ff)
                    by (bit_vector);
            }
            w = 2;
        } else if 0xe0 <= b0 && b0 <= 0xef {
            if s.len() - i < 3 {
                proof {
                    assert(!vstd::utf8::valid_first_scalar(sub));
                }
                return false;
            }
            let b1 = s[i + 1];
            let b2 = s[i + 2];
            proof {
                assert(sub[1] == s@[i + 1]);
                assert(sub[2] == s@[i + 2]);
            }
            if !(0x80 <= b1 && b1 <= 0xbf) || !(0x80 <= b2 && b2 <= 0xbf) {
                proof {
                    assert(!vstd::utf8::valid_first_scalar(sub));
                }
                return false;
            }
            let c: u32 = (((b0 & 0x0F) as u32) << 12u32) | (((b1 & 0x3f) as u32) << 6u32) | ((b2
                & 0x3f) as u32);
            if c < 0x800 || (0xd800 <= c && c <= 0xdfff) {
                proof {
                    assert(vstd::utf8::decode_first_codepoint(sub) == c);
                    assert(!vstd::utf8::valid_first_scalar(sub));
                }
                return false;
            }
            w = 3;
        } else if 0xf0 <= b0 && b0 <= 0xf7 {
            if s.len() - i < 4 {
                proof {
                    assert(!vstd::utf8::valid_first_scalar(sub));
                }
                return false;
            }
            let b1 = s[i + 1];
            let b2 = s[i + 2];
            let b3 = s[i + 3];
            proof {
                assert(sub[1] == s@[i + 1]);
                assert(sub[2] == s@[i + 2]);
                assert(sub[3] == s@[i + 3]);
            }
            if !(0x80 <= b1 && b1 <= 0xbf) || !(0x80 <= b2 && b2 <= 0xbf) || !(0x80 <= b3 && b3
                <= 0xbf) {
                proof {
                    assert(!vstd::utf8::valid_first_scalar(sub));
                }
                return false;
            }
            let c: u32 = (((b0 & 0x07) as u32) << 18u32) | (((b1 & 0x3f) as u32) << 12u32) | (((b2
                & 0x3f) as u32) << 6u32) | ((b3 & 0x3f) as u32);
            if c < 0x10000 || c > 0x10ffff {
                proof {
                    assert(vstd::utf8::decode_first_codepoint(sub) == c);
                    assert(!vstd::utf8::valid_first_scalar(sub));
                }
                return false;
            }
            w = 4;
        } else {
            proof {
                assert(!vstd::utf8::valid_first_scalar(sub));
            }
            return false;
        }
        proof {
            assert(vstd::utf8::valid_first_scalar(sub));
            assert(vstd::utf8::length_of_first_scalar(sub) == w);
            assert(vstd::utf8::pop_first_scalar(sub) =~= s@.skip(i + w));
            assert(vstd::utf8::valid_utf8(sub) == vstd::utf8::valid_utf8(s@.skip(i + w)));
        }
        i = i + w;
    }
    proof {
        assert(s@.skip(s@.len() as int) =~= Seq::<u8>::empty());
    }
    true
}

/// What a configuration document means: the bytes must be a valid
/// UTF-8 encoding (the input format is UTF-8 JSON) and match the
/// configuration grammar.
pub open spec fn spec_config_doc(s: Seq<u8>) -> Option<ConfigModel> {
    if vstd::utf8::valid_utf8(s) {
        spec_config_text(s)
    } else {
        None
    }
}

/// Matches an executable config-parse result against the grammar's.
pub open spec fn cfg_res_match(r: Option<(Config, usize)>, sr: Option<(ConfigModel, int)>) -> bool {
    match (r, sr) {
        (Some(p), Some(sp)) => p.0.deep_view() == sp.0 && p.1 as int == sp.1,
        (None, None) => true,
        _ => false,
    }
}

/// Parses one field of the configuration object, starting at its key.
fn parse_config_fields(
    s: &Vec<u8>,
    i: usize,
    source: Option<Vec<u8>>,
    destination: Option<Vec<u8>>,
    platforms: Option<Vec<Vec<u8>>>,
    images: Option<Vec<Image>>,
) -> (r: Option<(Config, usize)>)
    requires
        i <= s@.len(),
    ensures
        cfg_res_match(
            r,
            spec_config_fields(
                s@,
                i as int,
                source.deep_view(),
                destination.deep_view(),
                platforms.deep_view(),
                images.deep_view(),
            ),
        ),
    decreases s@.len() - i,
{
    let j = skip_ws(s, i);
    match parse_string(s, j) {
        None => None,
        Some((k, m)) => {
            proof {
                lemma_string_adv(s@, j as int);
            }
            let n = skip_ws(s, m);
            if n >= s.len() {
                return None;
            }
            if s[n] != ':' as u8 {
                return None;
            }
            let p = skip_ws(s, n + 1);
            if bytes_eq_lit(&k, "source") {
                if source.is_some() {
                    return None;
                }
                match parse_string(s, p) {
                    None => None,
                    Some((v, q)) => {
                        proof {
                            lemma_string_adv(s@, p as int);
                            assert(v.deep_view() =~= v@);
                        }
                        parse_config_more(s, q, Some(v), destination, platforms, images)
                    },
                }
            } else if bytes_eq_lit(&k, "destination") {
                if destination.is_some() {
                    return None;
                }
                match parse_string(s, p) {
                    None => None,
                    Some((v, q)) => {
                        proof {
                            lemma_string_adv(s@, p as int);
                            assert(v.deep_view() =~= v@);
                        }
                        parse_config_more(s, q, source, Some(v), platforms, images)
                    },
                }
            } else if bytes_eq_lit(&k, "platforms") {
                if platforms.is_some() {
                    return None;
                }
                match parse_strings(s, p) {
                    None => None,
                    Some((v, q)) => {
                        proof {
                            lemma_strings_adv(s@, p as int);
                        }
                        parse_config_more(s, q, source, destination, Some(v), images)
                    },
                }
            } else if bytes_eq_lit(&k, "images") {
                if images.is_some() {
                    return None;
                }
                match parse_images(s, p) {
                    None => None,
                    Some((v, q)) => {
                        proof {
                            lemma_images_adv(s@, p as int);
                        }
                        parse_config_more(s, q, source, destination, platforms, Some(v))
                    },
                }
            } else {
                match skip_value(s, p) {
                    None => None,
                    Some(q) => parse_config_more(s, q, source, destination, platforms, images),
                }
            }
        },
    }
}

/// Parses what follows one field of the configuration object.
fn parse_config_more(
    s: &Vec<u8>,
    i: usize,
    source: Option<Vec<u8>>,
    destination: Option<Vec<u8>>,
    platforms: Option<Vec<Vec<u8>>>,
    images: Option<Vec<Image>>,
) -> (r: Option<(Config, usize)>)
    requires
        i <= s@.len(),
    ensures
        cfg_res_match(
            r,
            spec_config_more(
                s@,
                i as int,
                source.deep_view(),
                destination.deep_view(),
                platforms.deep_view(),
                images.deep_view(),
            ),
        ),
    decreases s@.len() - i,
{
    let j = skip_ws(s, i);
    if j >= s.len() {
        return None;
    }
    let b = s[j];
    if b == ',' as u8 {
        parse_config_fields(s, j + 1, source, destination, platforms, images)
    } else if b == '}' as u8 {
        match (source, destination, images) {
            (Some(src), Some(dst), Some(imgs)) => {
                let c = Config { source: src, destination: dst, platforms, images: imgs };
                Some((c, j + 1))
            },
            _ => None,
        }
    } else {
        None
    }
}

/// Parses the configuration object starting at `{`.
fn parse_config_object(s: &Vec<u8>, i: usize) -> (r: Option<(Config, usize)>)
    requires
        i <= s@.len(),
    ensures
        cfg_res_match(r, spec_config(s@, i as int)),
{
    if i < s.len() {
        let b = s[i];
        if b == '{' as u8 {
            return parse_config_fields(s, i + 1, None, None, None, None);
        }
    }
    None
}

/// Parses a whole configuration document.
///
/// Returns the configuration exactly when the bytes are a well-formed
/// document per [`spec_config_doc`] (valid UTF-8 matching the
/// grammar), and a parse error otherwise: a malformed document never
/// yields a configuration.
pub fn parse_config(s: &Vec<u8>) -> (r: Result<Config, ConfigError>)
    ensures
        match r {
            Ok(c) => spec_config_doc(s@) == Some(c.deep_view()),
            Err(e) => spec_config_doc(s@) is None && e == ConfigError::Parse,
        },
{
    if !utf8_check(s) {
        return Err(ConfigError::Parse);
    }
    let i = skip_ws(s, 0);
    match parse_config_object(s, i) {
        None => Err(ConfigError::Parse),
        Some((c, j)) => {
            proof {
                lemma_config_adv(s@, i as int);
            }
            let t = skip_ws(s, j);
            if t == s.len() {
                Ok(c)
            } else {
                Err(ConfigError::Parse)
            }
        },
    }
}

} // verus!
