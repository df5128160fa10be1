//! Reading literals into values.
use vstd::prelude::*;
use crate::host::Host;
use crate::grammar::{
    dots_at, erase, erase_all, first_error, has_dots, inner, oks, parse_each, parse_spec,
    range_spec, split_on, trim, uniform,
};
use crate::lexical::{
    commas_to_dot_chars, eq_ignore_case_chars, int_of, is_float_chars, pieces_view,
    range_parts_of, slice_chars, split_chars, strip_brace_chars, trim_chars,
};
use crate::text::{chars_of, string_of};
use crate::value::{lemma_views, tag, views, EvalError, StackValue, Val};

verus! {

broadcast use lemma_views;

/// Whether a parse result agrees with the model, floats up to their bits.
pub open spec fn parsed(r: Result<StackValue, EvalError>, m: Result<Val, EvalError>) -> bool {
    match (r, m) {
        (Ok(v), Ok(w)) => erase(v@) == w,
        (Err(e), Err(f)) => e == f,
        _ => false,
    }
}

/// `erase_all` keeps the length and erases each element.
pub broadcast proof fn lemma_erase_all(s: Seq<Val>)
    ensures
        #[trigger] erase_all(s).len() == s.len(),
        forall|i: int| 0 <= i < s.len() ==> #[trigger] erase_all(s)[i] == erase(s[i]),
    decreases s.len(),
{
    if s.len() > 0 {
        lemma_erase_all(s.drop_last());
    }
}

/// Erasing float payloads keeps the variant.
pub proof fn lemma_erase_tag(v: Val)
    ensures
        tag(erase(v)) == tag(v),
{
}

/// Whether `s` contains `..`.
pub fn contains_dots(s: &Vec<char>) -> (r: bool)
    ensures
        r == has_dots(s@),
{
    let n = s.len();
    if n < 2 {
        return false;
    }
    let mut i: usize = 0;
    while i < n - 1
        invariant
            i <= n - 1,
            n == s@.len() >= 2,
            forall|j: int| 0 <= j < i ==> !dots_at(s@, j),
        decreases n - i,
    {
        if s[i] == '.' && s[i + 1] == '.' {
            assert(dots_at(s@, i as int));
            return true;
        }
        i += 1;
    }
    false
}

/// The integers `lo..=hi` as values.
pub fn int_range(lo: i32, hi: i32) -> (r: Vec<StackValue>)
    ensures
        views(r@) == range_spec(lo, hi),
{
    let mut r: Vec<StackValue> = Vec::new();
    if lo > hi {
        assert(views(r@) =~= range_spec(lo, hi));
        return r;
    }
    let mut k: i64 = lo as i64;
    while k <= hi as i64
        invariant
            lo <= hi,
            lo <= k <= hi as int + 1,
            r@.len() == k - lo,
            forall|j: int| 0 <= j < r@.len() ==> #[trigger] r@[j]@ == Val::Int((lo + j) as i32),
        decreases hi as int + 1 - k,
    {
        r.push(StackValue::Int(k as i32));
        k += 1;
    }
    assert(views(r@) =~= range_spec(lo, hi));
    r
}

/// Parses each piece, stopping at the first error.
pub fn parse_pieces<U: Host>(unit: &U, pieces: &Vec<Vec<char>>, bound: usize) -> (r: Result<
    Vec<StackValue>,
    EvalError,
>)
    ensures
        ({
            let rs = parse_each(pieces_view(pieces@), bound as nat);
            match r {
                Ok(vals) => first_error(rs) is None && erase_all(views(vals@)) == oks(rs),
                Err(e) => first_error(rs) == Some(e),
            }
        }),
    decreases bound, 0nat,
{
    broadcast use lemma_erase_all;
    let ghost rs = parse_each(pieces_view(pieces@), bound as nat);
    let mut vals: Vec<StackValue> = Vec::new();
    let mut i: usize = 0;
    let n = pieces.len();
    assert(rs.subrange(0, n as int) =~= rs);
    while i < n
        invariant
            i <= n == pieces@.len() == rs.len(),
            rs == parse_each(pieces_view(pieces@), bound as nat),
            vals@.len() == i,
            forall|j: int| 0 <= j < i ==> #[trigger] rs[j] is Ok && erase(vals@[j]@) == rs[j]->Ok_0,
            first_error(rs) == first_error(rs.subrange(i as int, n as int)),
        decreases n - i,
    {
        let piece = &pieces[i];
        assert(pieces_view(pieces@)[i as int] == piece@);
        let r = if piece.len() < bound {
            parse_chars(unit, piece)
        } else {
            Err(EvalError::Parse)
        };
        assert(rs.subrange(i as int, n as int)[0] == rs[i as int]);
        match r {
            Err(e) => {
                return Err(e);
            },
            Ok(v) => {
                assert(rs.subrange(i as int, n as int).drop_first() =~= rs.subrange(i + 1, n as int));
                vals.push(v);
            },
        }
        i += 1;
    }
    assert(rs.subrange(n as int, n as int) =~= Seq::<Result<Val, EvalError>>::empty());
    assert(erase_all(views(vals@)) =~= oks(rs));
    Ok(vals)
}

/// Whether neighbouring values have the same variant.
fn all_same_type(vals: &Vec<StackValue>) -> (r: bool)
    ensures
        r == uniform(erase_all(views(vals@))),
{
    broadcast use lemma_erase_all;
    let ghost es = erase_all(views(vals@));
    let n = vals.len();
    if n == 0 {
        return true;
    }
    let mut k: usize = 0;
    while k < n - 1
        invariant
            k <= n - 1,
            n == vals@.len() == es.len(),
            es == erase_all(views(vals@)),
            forall|j: int| 0 <= j < k ==> tag(#[trigger] es[j]) == tag(es[j + 1]),
        decreases n - k,
    {
        proof {
            lemma_erase_tag(vals@[k as int]@);
            lemma_erase_tag(vals@[k + 1]@);
            lemma_views(vals@);
            lemma_erase_all(views(vals@));
            assert(es[k as int] == erase(views(vals@)[k as int]));
            assert(es[k + 1] == erase(views(vals@)[k + 1]));
            assert(views(vals@)[k as int] == vals@[k as int]@);
            assert(views(vals@)[k + 1] == vals@[k + 1]@);
        }
        if !vals[k].same_type(&vals[k + 1]) {
            assert(!(tag(es[k as int]) == tag(es[k + 1])));
            return false;
        }
        k += 1;
    }
    true
}

/// Reads a literal from its characters.
pub fn parse_chars<U: Host>(unit: &U, s: &Vec<char>) -> (r: Result<StackValue, EvalError>)
    ensures
        parsed(r, parse_spec(s@)),
    decreases s@.len(), 1nat,
{
    broadcast use lemma_erase_all;
    let n = s.len();
    let bracketed = n >= 2 && s[0] == '[' && s[n - 1] == ']';
    if bracketed && contains_dots(s) {
        let body = slice_chars(s, 1, n - 1);
        match range_parts_of(&body) {
            None => {
                return Err(EvalError::Structure);
            },
            Some((a, b)) => {
                let ta = trim_chars(&a);
                let tb = trim_chars(&b);
                let ghost rs = parse_each(seq![trim(a@), trim(b@)], n as nat);
                let ra = if ta.len() < n {
                    parse_chars(unit, &ta)
                } else {
                    Err(EvalError::Parse)
                };
                let lo = match ra {
                    Err(e) => {
                        return Err(e);
                    },
                    Ok(v) => v,
                };
                let rb = if tb.len() < n {
                    parse_chars(unit, &tb)
                } else {
                    Err(EvalError::Parse)
                };
                let hi = match rb {
                    Err(e) => {
                        return Err(e);
                    },
                    Ok(v) => v,
                };
                match (lo, hi) {
                    (StackValue::Int(x), StackValue::Int(y)) => {
                        let r = int_range(x, y);
                        assert(erase_all(views(r@)) =~= views(r@));
                        return Ok(StackValue::Vec(r));
                    },
                    _ => {
                        return Err(EvalError::Structure);
                    },
                }
            },
        }
    }
    match int_of(s) {
        Some(i) => {
            return Ok(StackValue::Int(i));
        },
        None => {},
    }
    let dotted = commas_to_dot_chars(s);
    if is_float_chars(&dotted) {
        let text = string_of(&dotted);
        return Ok(StackValue::Float(unit.from_literal(text.as_str())));
    }
    let word_true = vec!['t', 'r', 'u', 'e'];
    let word_false = vec!['f', 'a', 'l', 's', 'e'];
    assert(word_true@ =~= seq!['t', 'r', 'u', 'e']);
    assert(word_false@ =~= seq!['f', 'a', 'l', 's', 'e']);
    if eq_ignore_case_chars(s, &word_true) {
        return Ok(StackValue::Bool(true));
    }
    if eq_ignore_case_chars(s, &word_false) {
        return Ok(StackValue::Bool(false));
    }
    if bracketed {
        let body = slice_chars(s, 1, n - 1);
        if body.len() == 0 {
            let empty: Vec<StackValue> = Vec::new();
            assert(erase_all(views(empty@)) =~= Seq::<Val>::empty());
            return Ok(StackValue::Vec(empty));
        }
        let raw = split_chars(&body, ',');
        let mut pieces: Vec<Vec<char>> = Vec::new();
        let mut i: usize = 0;
        while i < raw.len()
            invariant
                i <= raw@.len(),
                pieces@.len() == i,
                forall|j: int| 0 <= j < i ==> #[trigger] pieces@[j]@ == trim(raw@[j]@),
            decreases raw.len() - i,
        {
            pieces.push(trim_chars(&raw[i]));
            i += 1;
        }
        assert(pieces_view(pieces@) =~= split_on(inner(s@), ',').map_values(|p: Seq<char>| trim(p))) by {
            assert(pieces_view(raw@) == split_on(inner(s@), ','));
            assert forall|j: int| 0 <= j < pieces@.len() implies pieces_view(pieces@)[j] == split_on(
                inner(s@),
                ',',
            ).map_values(|p: Seq<char>| trim(p))[j] by {
                assert(pieces_view(raw@)[j] == raw@[j]@);
            }
        }
        let vals = match parse_pieces(unit, &pieces, n) {
            Err(e) => {
                return Err(e);
            },
            Ok(vals) => vals,
        };
        if all_same_type(&vals) {
            return Ok(StackValue::Vec(vals));
        } else {
            return Err(EvalError::Structure);
        }
    }
    if n >= 2 && s[0] == '{' && s[n - 1] == '}' {
        let body = strip_brace_chars(s);
        let pieces = split_chars(&body, ',');
        let vals = match parse_pieces(unit, &pieces, n) {
            Err(e) => {
                return Err(e);
            },
            Ok(vals) => vals,
        };
        return Ok(StackValue::Quotation(vals));
    }
    if n >= 2 && s[0] == '"' && s[n - 1] == '"' {
        let body = slice_chars(s, 1, n - 1);
        return Ok(StackValue::String(string_of(&body)));
    }
    if n >= 2 && s[0] == '\'' && s[n - 1] == '\'' {
        let body = slice_chars(s, 1, n - 1);
        return Ok(StackValue::Symbol(string_of(&body)));
    }
    if n == 1 {
        return Ok(StackValue::Symbol(string_of(s)));
    }
    Err(EvalError::Parse)
}

/// Reads a literal.
pub fn parse_value<U: Host>(unit: &U, input: &str) -> (r: Result<StackValue, EvalError>)
    ensures
        parsed(r, parse_spec(input@)),
{
    let cs = chars_of(input);
    parse_chars(unit, &cs)
}

} // verus!
