//! The literal syntax, stated over character sequences.
//!
//! `parse_spec` says what a literal parses to. Float payloads are computed
//! by the float unit, so the model says `Val::Float(0)` for each of them and
//! [`erase`] compares a parsed value with it up to those payloads.
use vstd::prelude::*;
use crate::value::{Val, EvalError, tag};

verus! {

/// Characters with the Unicode White_Space property, which `str::trim` removes.
pub open spec fn is_white(c: char) -> bool {
    ('\u{9}' <= c <= '\u{d}') || c == ' ' || c == '\u{85}' || c == '\u{a0}' || c == '\u{1680}'
        || ('\u{2000}' <= c <= '\u{200a}') || c == '\u{2028}' || c == '\u{2029}' || c == '\u{202f}'
        || c == '\u{205f}' || c == '\u{3000}'
}

/// `s` without leading white space.
pub open spec fn trim_start(s: Seq<char>) -> Seq<char>
    decreases s.len(),
{
    if s.len() > 0 && is_white(s[0]) {
        trim_start(s.drop_first())
    } else {
        s
    }
}

/// `s` without trailing white space.
pub open spec fn trim_end(s: Seq<char>) -> Seq<char>
    decreases s.len(),
{
    if s.len() > 0 && is_white(s.last()) {
        trim_end(s.drop_last())
    } else {
        s
    }
}

/// `s` without white space at either end.
pub open spec fn trim(s: Seq<char>) -> Seq<char> {
    trim_end(trim_start(s))
}

/// The pieces of `s` between the separators `c`, in order.
pub open spec fn split_on(s: Seq<char>, c: char) -> Seq<Seq<char>>
    decreases s.len(),
{
    if s.len() == 0 {
        seq![Seq::empty()]
    } else {
        let rest = split_on(s.drop_last(), c);
        if s.last() == c {
            rest.push(Seq::empty())
        } else {
            rest.update(rest.len() - 1, rest.last().push(s.last()))
        }
    }
}

/// Whether `..` starts at position `i` of `s`.
pub open spec fn dots_at(s: Seq<char>, i: int) -> bool {
    0 <= i && i + 1 < s.len() && s[i] == '.' && s[i + 1] == '.'
}

/// Whether `s` contains `..`.
pub open spec fn has_dots(s: Seq<char>) -> bool {
    exists|i: int| dots_at(s, i)
}

/// Whether the first `..` of `s` starts at `p`.
pub open spec fn first_dots(s: Seq<char>, p: int) -> bool {
    dots_at(s, p) && forall|i: int| 0 <= i < p ==> !dots_at(s, i)
}

/// The two sides of a range: `s` split at its first `..`, when no other
/// `..` follows it.
pub open spec fn range_parts(s: Seq<char>) -> Option<(Seq<char>, Seq<char>)> {
    if exists|p: int| first_dots(s, p) && !has_dots(#[trigger] s.subrange(p + 2, s.len() as int)) {
        let p = choose|p: int| first_dots(s, p) && !has_dots(#[trigger] s.subrange(p + 2, s.len() as int));
        Some((s.subrange(0, p), s.subrange(p + 2, s.len() as int)))
    } else {
        None
    }
}

/// Whether `c` is an ASCII digit.
pub open spec fn is_digit(c: char) -> bool {
    '0' <= c <= '9'
}

/// Whether every character of `s` is a digit.
pub open spec fn all_digits(s: Seq<char>) -> bool {
    forall|i: int| 0 <= i < s.len() ==> is_digit(#[trigger] s[i])
}

/// The number a string of digits stands for in base ten.
pub open spec fn digits_value(s: Seq<char>) -> int
    decreases s.len(),
{
    if s.len() == 0 {
        0
    } else {
        10 * digits_value(s.drop_last()) + (s.last() as int - '0' as int)
    }
}

/// The integer a literal stands for, before the range check: an optional
/// sign followed by at least one digit.
pub open spec fn int_literal(s: Seq<char>) -> Option<int> {
    if s.len() > 0 && (s[0] == '+' || s[0] == '-') {
        let d = s.drop_first();
        if d.len() > 0 && all_digits(d) {
            Some(if s[0] == '-' { -digits_value(d) } else { digits_value(d) })
        } else {
            None
        }
    } else if s.len() > 0 && all_digits(s) {
        Some(digits_value(s))
    } else {
        None
    }
}

/// A 32-bit integer literal, as `i32::from_str` reads it.
pub open spec fn int_spec(s: Seq<char>) -> Option<i32> {
    match int_literal(s) {
        Some(n) => if i32::MIN <= n <= i32::MAX { Some(n as i32) } else { None },
        None => None,
    }
}

/// Whether `c` is the lower-case ASCII letter `w` in either case.
pub open spec fn same_letter(c: char, w: char) -> bool {
    c == w || ('A' <= c <= 'Z' && (c as u32) + 32 == (w as u32))
}

/// Whether `s` equals `word` (a lower-case ASCII word), ignoring ASCII case.
pub open spec fn eq_ignore_case(s: Seq<char>, word: Seq<char>) -> bool {
    s.len() == word.len() && forall|i: int| 0 <= i < s.len() ==> same_letter(#[trigger] s[i], word[i])
}

/// The number of `.` in `s`.
pub open spec fn dot_count(s: Seq<char>) -> nat
    decreases s.len(),
{
    if s.len() == 0 {
        0
    } else {
        dot_count(s.drop_last()) + if s.last() == '.' { 1nat } else { 0nat }
    }
}

/// A run of digits, possibly with one `.` in it, with a digit somewhere.
pub open spec fn is_mantissa(s: Seq<char>) -> bool {
    &&& exists|i: int| 0 <= i < s.len() && is_digit(#[trigger] s[i])
    &&& forall|i: int| 0 <= i < s.len() ==> is_digit(#[trigger] s[i]) || s[i] == '.'
    &&& dot_count(s) <= 1
}

/// An exponent after the `e`: an optional sign and at least one digit.
pub open spec fn is_exponent(s: Seq<char>) -> bool {
    let d = if s.len() > 0 && (s[0] == '+' || s[0] == '-') { s.drop_first() } else { s };
    d.len() > 0 && all_digits(d)
}

/// An unsigned number: a mantissa with an optional exponent.
pub open spec fn is_number(s: Seq<char>) -> bool {
    is_mantissa(s) || exists|i: int|
        0 <= i < s.len() && (s[i] == 'e' || s[i] == 'E') && is_mantissa(s.subrange(0, i))
            && #[trigger] is_exponent(s.subrange(i + 1, s.len() as int))
}

/// The syntax that `f64::from_str` accepts: an optional sign, then `inf`,
/// `infinity` or `nan` in any case, or a number.
pub open spec fn is_float_literal(s: Seq<char>) -> bool {
    let d = if s.len() > 0 && (s[0] == '+' || s[0] == '-') { s.drop_first() } else { s };
    eq_ignore_case(d, seq!['i', 'n', 'f']) || eq_ignore_case(
        d,
        seq!['i', 'n', 'f', 'i', 'n', 'i', 't', 'y'],
    ) || eq_ignore_case(d, seq!['n', 'a', 'n']) || is_number(d)
}

/// `s` with each `,` read as `.`.
pub open spec fn commas_to_dots(s: Seq<char>) -> Seq<char> {
    s.map_values(|c: char| if c == ',' { '.' } else { c })
}

/// Whether `s` is at least two characters long, from `open` to `close`.
pub open spec fn enclosed(s: Seq<char>, open: char, close: char) -> bool {
    s.len() >= 2 && s[0] == open && s.last() == close
}

/// `s` without its first and its last character.
pub open spec fn inner(s: Seq<char>) -> Seq<char> {
    s.subrange(1, s.len() - 1)
}

/// `s` without any of the `{` it starts with and the `}` it ends with.
pub open spec fn strip_braces(s: Seq<char>) -> Seq<char>
    decreases s.len(),
{
    if s.len() > 0 && s[0] == '{' {
        strip_braces(s.drop_first())
    } else if s.len() > 0 && s.last() == '}' {
        strip_braces(s.drop_last())
    } else {
        s
    }
}

/// `v` with each float payload set to zero.
pub open spec fn erase(v: Val) -> Val
    decreases v, 1nat,
{
    match v {
        Val::Float(_) => Val::Float(0),
        Val::List(s) => Val::List(erase_all(s)),
        Val::Quotation(s) => Val::Quotation(erase_all(s)),
        _ => v,
    }
}

/// `erase` on each element.
pub open spec fn erase_all(s: Seq<Val>) -> Seq<Val>
    decreases s, 0nat,
{
    if s.len() == 0 {
        Seq::empty()
    } else {
        erase_all(s.drop_last()).push(erase(s.last()))
    }
}

/// The first error among some results, if any.
pub open spec fn first_error(rs: Seq<Result<Val, EvalError>>) -> Option<EvalError>
    decreases rs.len(),
{
    if rs.len() == 0 {
        None
    } else {
        match rs[0] {
            Err(e) => Some(e),
            Ok(_) => first_error(rs.drop_first()),
        }
    }
}

/// The values of results that hold no error.
pub open spec fn oks(rs: Seq<Result<Val, EvalError>>) -> Seq<Val> {
    rs.map_values(|r: Result<Val, EvalError>| r->Ok_0)
}

/// Whether all values have the variant of their neighbours.
pub open spec fn uniform(vs: Seq<Val>) -> bool {
    forall|i: int| 0 <= i < vs.len() - 1 ==> tag(#[trigger] vs[i]) == tag(vs[i + 1])
}

/// The integers `lo..=hi`, ascending; empty when `lo > hi`.
pub open spec fn range_spec(lo: i32, hi: i32) -> Seq<Val> {
    if lo > hi {
        Seq::empty()
    } else {
        Seq::new((hi - lo + 1) as nat, |k: int| Val::Int((lo + k) as i32))
    }
}

/// Each piece parsed.
pub open spec fn parse_each(pieces: Seq<Seq<char>>, bound: nat) -> Seq<Result<Val, EvalError>>
    decreases bound, 0nat,
{
    Seq::new(
        pieces.len(),
        |k: int|
            if pieces[k].len() < bound {
                parse_spec(pieces[k])
            } else {
                Err(EvalError::Parse)
            },
    )
}

/// What a literal parses to, forms tried in this order: a range
/// `[a..b]`, an integer, a float (`,` read as `.`), a Boolean in any case,
/// a list `[a,b,...]` of one variant, a quotation `{a,b,...}`, a text
/// `"..."`, a symbol `'...'`, and a symbol of one character.
pub open spec fn parse_spec(s: Seq<char>) -> Result<Val, EvalError>
    decreases s.len(), 1nat,
{
    if enclosed(s, '[', ']') && has_dots(s) {
        match range_parts(inner(s)) {
            None => Err(EvalError::Structure),
            Some((a, b)) => {
                let rs = parse_each(seq![trim(a), trim(b)], s.len());
                match (rs[0], rs[1]) {
                    (Err(e), _) => Err(e),
                    (_, Err(e)) => Err(e),
                    (Ok(Val::Int(x)), Ok(Val::Int(y))) => Ok(Val::List(range_spec(x, y))),
                    _ => Err(EvalError::Structure),
                }
            },
        }
    } else if int_spec(s) is Some {
        Ok(Val::Int(int_spec(s)->Some_0))
    } else if is_float_literal(commas_to_dots(s)) {
        Ok(Val::Float(0))
    } else if eq_ignore_case(s, seq!['t', 'r', 'u', 'e']) {
        Ok(Val::Bool(true))
    } else if eq_ignore_case(s, seq!['f', 'a', 'l', 's', 'e']) {
        Ok(Val::Bool(false))
    } else if enclosed(s, '[', ']') {
        if inner(s).len() == 0 {
            Ok(Val::List(Seq::empty()))
        } else {
            let rs = parse_each(split_on(inner(s), ',').map_values(|p: Seq<char>| trim(p)), s.len());
            match first_error(rs) {
                Some(e) => Err(e),
                None => if uniform(oks(rs)) {
                    Ok(Val::List(oks(rs)))
                } else {
                    Err(EvalError::Structure)
                },
            }
        }
    } else if enclosed(s, '{', '}') {
        let rs = parse_each(split_on(strip_braces(s), ','), s.len());
        match first_error(rs) {
            Some(e) => Err(e),
            None => Ok(Val::Quotation(oks(rs))),
        }
    } else if enclosed(s, '"', '"') {
        Ok(Val::Text(inner(s)))
    } else if enclosed(s, '\'', '\'') {
        Ok(Val::Symbol(inner(s)))
    } else if s.len() == 1 {
        Ok(Val::Symbol(s))
    } else {
        Err(EvalError::Parse)
    }
}

} // verus!
