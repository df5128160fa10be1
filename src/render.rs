//! Rendering values as text.
use vstd::prelude::*;
use crate::grammar::{
    all_digits, commas_to_dots, eq_ignore_case, first_error, is_digit, is_float_literal,
    is_mantissa, is_number, oks, parse_each, parse_spec, split_on, strip_braces,
};
use crate::host::Host;
use crate::text::string_of;
use crate::value::{lemma_views, views, EvalError, StackValue, Val};

verus! {

broadcast use lemma_views;

/// The decimal digits of a natural number.
pub open spec fn nat_text(n: nat) -> Seq<char>
    decreases n,
{
    let d = ((n % 10) + '0' as nat) as char;
    if n < 10 {
        seq![d]
    } else {
        nat_text(n / 10).push(d)
    }
}

/// The decimal form of an integer, with a `-` when it is negative.
pub open spec fn int_text(i: int) -> Seq<char> {
    if i < 0 {
        seq!['-'] + nat_text((-i) as nat)
    } else {
        nat_text(i as nat)
    }
}

/// Whether a value holds no float, at any depth.
pub open spec fn float_free(v: Val) -> bool
    decreases v, 1nat,
{
    match v {
        Val::Float(_) => false,
        Val::List(s) => all_float_free(s),
        Val::Quotation(s) => all_float_free(s),
        _ => true,
    }
}

/// Whether no value of a sequence holds a float.
pub open spec fn all_float_free(s: Seq<Val>) -> bool
    decreases s, 0nat,
{
    s.len() == 0 || (all_float_free(s.drop_last()) && float_free(s.last()))
}

/// `all_float_free` holds exactly when each element is free of floats.
pub broadcast proof fn lemma_all_float_free(s: Seq<Val>)
    ensures
        #[trigger] all_float_free(s) <==> forall|i: int| 0 <= i < s.len() ==> float_free(#[trigger] s[i]),
    decreases s.len(),
{
    if s.len() > 0 {
        lemma_all_float_free(s.drop_last());
        assert forall|i: int| 0 <= i < s.len() - 1 implies s.drop_last()[i] == s[i] by {}
    }
}

/// The text of a value without floats: integers in decimal, Booleans as
/// `true` or `false`, texts and symbols as they are, lists as
/// `[a, b, c]` and quotations as `{a b c}`.
pub open spec fn render_spec(v: Val) -> Seq<char>
    decreases v, 1nat,
{
    match v {
        Val::Int(i) => int_text(i as int),
        Val::Float(_) => Seq::empty(),
        Val::Bool(b) => if b { seq!['t', 'r', 'u', 'e'] } else { seq!['f', 'a', 'l', 's', 'e'] },
        Val::Text(t) => t,
        Val::Symbol(t) => t,
        Val::List(s) => seq!['['] + render_seq(s, seq![',', ' ']) + seq![']'],
        Val::Quotation(s) => seq!['{'] + render_seq(s, seq![' ']) + seq!['}'],
    }
}

/// The texts of values, joined by a separator.
pub open spec fn render_seq(s: Seq<Val>, sep: Seq<char>) -> Seq<char>
    decreases s, 0nat,
{
    if s.len() == 0 {
        Seq::empty()
    } else if s.len() == 1 {
        render_spec(s[0])
    } else {
        render_seq(s.drop_last(), sep) + sep + render_spec(s.last())
    }
}

/// The decimal digits of `n`.
pub fn nat_chars(n: u64) -> (r: Vec<char>)
    ensures
        r@ == nat_text(n as nat),
    decreases n,
{
    let d = n % 10;
    let c: char = if d == 0 { '0' } else if d == 1 { '1' } else if d == 2 { '2' } else if d == 3 {
        '3'
    } else if d == 4 { '4' } else if d == 5 { '5' } else if d == 6 { '6' } else if d == 7 {
        '7'
    } else if d == 8 { '8' } else { '9' };
    assert(c == ((n as nat % 10) + '0' as nat) as char);
    if n < 10 {
        let mut v: Vec<char> = Vec::new();
        v.push(c);
        assert(v@ =~= seq![c]);
        v
    } else {
        let mut v = nat_chars(n / 10);
        v.push(c);
        v
    }
}

/// The decimal form of an integer.
pub fn int_chars(i: i32) -> (r: Vec<char>)
    ensures
        r@ == int_text(i as int),
{
    if i < 0 {
        let digits = nat_chars((-(i as i64)) as u64);
        let mut v: Vec<char> = Vec::new();
        v.push('-');
        let mut k: usize = 0;
        while k < digits.len()
            invariant
                k <= digits@.len(),
                v@ == seq!['-'] + digits@.subrange(0, k as int),
            decreases digits.len() - k,
        {
            v.push(digits[k]);
            k += 1;
            assert(v@ =~= seq!['-'] + digits@.subrange(0, k as int));
        }
        assert(digits@.subrange(0, k as int) =~= digits@);
        v
    } else {
        nat_chars(i as u64)
    }
}

/// Appends `b` to `a`.
fn extend_chars(a: &mut Vec<char>, b: &Vec<char>)
    ensures
        final(a)@ == old(a)@ + b@,
{
    let mut k: usize = 0;
    while k < b.len()
        invariant
            k <= b@.len(),
            a@ == old(a)@ + b@.subrange(0, k as int),
        decreases b.len() - k,
    {
        a.push(b[k]);
        k += 1;
        assert(a@ =~= old(a)@ + b@.subrange(0, k as int));
    }
    assert(b@.subrange(0, k as int) =~= b@);
}

/// The characters of a string.
fn string_chars(s: &String) -> (r: Vec<char>)
    ensures
        r@ == s@,
{
    crate::text::chars_of(s.as_str())
}

/// The rendered elements of a list, joined by `sep`.
fn render_all<H: Host>(host: &H, l: &Vec<StackValue>, sep: &Vec<char>) -> (r: Vec<char>)
    ensures
        all_float_free(views(l@)) ==> r@ == render_seq(views(l@), sep@),
    decreases l, 0nat,
{
    let ghost vs = views(l@);
    proof {
        lemma_all_float_free(vs);
    }
    let mut out: Vec<char> = Vec::new();
    let mut k: usize = 0;
    while k < l.len()
        invariant
            k <= l@.len() == vs.len(),
            vs == views(l@),
            all_float_free(vs) <==> forall|i: int| 0 <= i < vs.len() ==> float_free(#[trigger] vs[i]),
            k == 0 ==> out@.len() == 0,
            all_float_free(vs) ==> out@ == render_seq(vs.subrange(0, k as int), sep@),
        decreases l.len() - k,
    {
        if k > 0 {
            extend_chars(&mut out, sep);
        }
        let piece = render_chars(host, &l[k]);
        extend_chars(&mut out, &piece);
        proof {
            let p = vs.subrange(0, k + 1);
            assert(p.drop_last() =~= vs.subrange(0, k as int));
            assert(vs[k as int] == l@[k as int]@);
            if all_float_free(vs) {
                assert(float_free(vs[k as int]));
                if k == 0 {
                    assert(out@ =~= piece@);
                } else {
                    assert(out@ =~= render_seq(vs.subrange(0, k as int), sep@) + sep@ + piece@);
                }
            }
        }
        k += 1;
    }
    assert(vs.subrange(0, k as int) =~= vs);
    out
}

/// The characters of a rendered value.
pub fn render_chars<H: Host>(host: &H, v: &StackValue) -> (r: Vec<char>)
    ensures
        float_free(v@) ==> r@ == render_spec(v@),
    decreases v, 1nat,
{
    match v {
        StackValue::Int(i) => {
            assert(v@ == Val::Int(*i));
            int_chars(*i)
        },
        StackValue::Float(f) => string_chars(&host.render_float(*f)),
        StackValue::Bool(b) => {
            assert(v@ == Val::Bool(*b));
            let r = if *b { vec!['t', 'r', 'u', 'e'] } else { vec!['f', 'a', 'l', 's', 'e'] };
            assert(r@ =~= render_spec(v@));
            r
        },
        StackValue::String(t) => {
            assert(v@ == Val::Text(t@));
            string_chars(t)
        },
        StackValue::Symbol(t) => {
            assert(v@ == Val::Symbol(t@));
            string_chars(t)
        },
        StackValue::Vec(l) => {
            let mut r: Vec<char> = vec!['['];
            assert(r@ =~= seq!['[']);
            let sep = vec![',', ' '];
            let body = render_all(host, l, &sep);
            extend_chars(&mut r, &body);
            r.push(']');
            assert(r@ =~= seq!['['] + body@ + seq![']']);
            assert(sep@ =~= seq![',', ' ']);
            r
        },
        StackValue::Quotation(l) => {
            let mut r: Vec<char> = vec!['{'];
            assert(r@ =~= seq!['{']);
            let sep = vec![' '];
            let body = render_all(host, l, &sep);
            extend_chars(&mut r, &body);
            r.push('}');
            assert(r@ =~= seq!['{'] + body@ + seq!['}']);
            assert(sep@ =~= seq![' ']);
            r
        },
    }
}

/// Renders a value as text; floats are rendered by the host.
pub fn render<H: Host>(host: &H, v: &StackValue) -> (r: String)
    ensures
        float_free(v@) ==> r@ == render_spec(v@),
{
    let cs = render_chars(host, v);
    string_of(&cs)
}


/// Tokens joined by a separator character.
pub open spec fn join_with(toks: Seq<Seq<char>>, c: char) -> Seq<char>
    decreases toks.len(),
{
    if toks.len() == 0 {
        Seq::empty()
    } else if toks.len() == 1 {
        toks[0]
    } else {
        join_with(toks.drop_last(), c) + seq![c] + toks.last()
    }
}

/// A piece without separators splits into itself.
proof fn lemma_split_single(b: Seq<char>, c: char)
    requires
        forall|j: int| 0 <= j < b.len() ==> b[j] != c,
    ensures
        split_on(b, c) == seq![b],
    decreases b.len(),
{
    if b.len() > 0 {
        lemma_split_single(b.drop_last(), c);
        assert(b.drop_last().push(b.last()) =~= b);
        assert(seq![b.drop_last()].update(0, b.drop_last().push(b.last())) =~= seq![b]);
    } else {
        assert(b =~= Seq::<char>::empty());
    }
}

/// Splitting `a`, a separator and a piece `b` without separators gives the
/// pieces of `a` and then `b`.
proof fn lemma_split_append(a: Seq<char>, c: char, b: Seq<char>)
    requires
        forall|j: int| 0 <= j < b.len() ==> b[j] != c,
    ensures
        split_on(a + seq![c] + b, c) == split_on(a, c).push(b),
    decreases b.len(),
{
    if b.len() == 0 {
        assert(a + seq![c] + b =~= a.push(c));
        assert((a.push(c)).drop_last() =~= a);
        assert(b =~= Seq::<char>::empty());
    } else {
        let b0 = b.drop_last();
        lemma_split_append(a, c, b0);
        assert((a + seq![c] + b).drop_last() =~= a + seq![c] + b0);
        let rest = split_on(a + seq![c] + b0, c);
        assert(rest.update(rest.len() - 1, rest.last().push(b.last())) =~= split_on(a, c).push(
            b0.push(b.last()),
        ));
        assert(b0.push(b.last()) =~= b);
    }
}

/// Tokens without the separator, joined by it, split back into themselves.
proof fn lemma_split_join(toks: Seq<Seq<char>>, c: char)
    requires
        toks.len() >= 1,
        forall|i: int, j: int| 0 <= i < toks.len() && 0 <= j < toks[i].len() ==> toks[i][j] != c,
    ensures
        split_on(join_with(toks, c), c) == toks,
    decreases toks.len(),
{
    if toks.len() == 1 {
        lemma_split_single(toks[0], c);
        assert(seq![toks[0]] =~= toks);
    } else {
        let init = toks.drop_last();
        lemma_split_join(init, c);
        lemma_split_append(join_with(init, c), c, toks.last());
        assert(init.push(toks.last()) =~= toks);
    }
}

/// Each token is no longer than the tokens joined.
proof fn lemma_join_len(toks: Seq<Seq<char>>, c: char, i: int)
    requires
        0 <= i < toks.len(),
    ensures
        toks[i].len() <= join_with(toks, c).len(),
    decreases toks.len(),
{
    if toks.len() > 1 && i < toks.len() - 1 {
        lemma_join_len(toks.drop_last(), c, i);
    }
}

/// Rendering values that render as the tokens joins the tokens.
proof fn lemma_render_join(vs: Seq<Val>, toks: Seq<Seq<char>>)
    requires
        vs.len() == toks.len(),
        forall|i: int| 0 <= i < vs.len() ==> render_spec(#[trigger] vs[i]) == toks[i],
    ensures
        render_seq(vs, seq![' ']) == join_with(toks, ' '),
    decreases vs.len(),
{
    if vs.len() > 1 {
        lemma_render_join(vs.drop_last(), toks.drop_last());
    }
}

/// Results that are all values hold no first error.
proof fn lemma_no_error(rs: Seq<Result<Val, EvalError>>)
    requires
        forall|i: int| 0 <= i < rs.len() ==> #[trigger] rs[i] is Ok,
    ensures
        first_error(rs) is None,
    decreases rs.len(),
{
    if rs.len() > 0 {
        lemma_no_error(rs.drop_first());
    }
}

/// A quotation literal `{t1,t2,...}` whose tokens each parse to a value
/// without floats that renders back as the token parses to the quotation of
/// those values, and renders back as the same tokens between braces,
/// joined by spaces. The tokens hold no comma, the first does not start
/// with `{` and the last does not end with `}`, as the braces around them
/// would take those.
pub proof fn lemma_quotation_round_trip(toks: Seq<Seq<char>>, vs: Seq<Val>)
    requires
        toks.len() >= 1,
        toks.len() == vs.len(),
        forall|i: int| 0 <= i < toks.len() ==> parse_spec(#[trigger] toks[i]) == Ok::<Val, EvalError>(vs[i]),
        forall|i: int| 0 <= i < toks.len() ==> float_free(#[trigger] vs[i]),
        forall|i: int| 0 <= i < toks.len() ==> render_spec(#[trigger] vs[i]) == toks[i],
        forall|i: int, j: int| 0 <= i < toks.len() && 0 <= j < toks[i].len() ==> toks[i][j] != ',',
        toks[0].len() > 0 ==> toks[0][0] != '{',
        toks.last().len() > 0 ==> toks.last().last() != '}',
    ensures
        parse_spec(seq!['{'] + join_with(toks, ',') + seq!['}']) == Ok::<Val, EvalError>(Val::Quotation(vs)),
        render_spec(Val::Quotation(vs)) == seq!['{'] + join_with(toks, ' ') + seq!['}'],
{
    let body = join_with(toks, ',');
    let s = seq!['{'] + body + seq!['}'];
    lemma_split_join(toks, ',');
    lemma_render_join(vs, toks);
    // The body starts with the first token and ends with the last one.
    assert(body.len() > 0 ==> body[0] != '{') by {
        lemma_join_first(toks, ',');
    }
    assert(body.len() > 0 ==> body.last() != '}') by {
        lemma_join_last(toks, ',');
    }
    lemma_strip_wrap(body);
    // Each token is shorter than the literal and parses.
    let rs = parse_each(split_on(strip_braces(s), ','), s.len());
    assert forall|i: int| 0 <= i < toks.len() implies #[trigger] rs[i] == Ok::<Val, EvalError>(vs[i]) by {
        lemma_join_len(toks, ',', i);
    }
    lemma_no_error(rs);
    assert(oks(rs) =~= vs);
    lemma_not_earlier_forms(s);
}

/// Braces around a body that neither starts with `{` nor ends with `}`
/// come off exactly.
proof fn lemma_strip_wrap(body: Seq<char>)
    requires
        body.len() > 0 ==> body[0] != '{',
        body.len() > 0 ==> body.last() != '}',
    ensures
        strip_braces(seq!['{'] + body + seq!['}']) == body,
{
    let s = seq!['{'] + body + seq!['}'];
    let t = s.drop_first();
    assert(t =~= body + seq!['}']);
    assert(t.drop_last() =~= body);
    assert(strip_braces(body) == body);
    assert(strip_braces(t) == strip_braces(body));
    assert(strip_braces(s) == strip_braces(t));
}

/// A text that starts with `{` is neither a range, an integer, a float,
/// nor a Boolean.
proof fn lemma_not_earlier_forms(s: Seq<char>)
    requires
        s.len() >= 2,
        s[0] == '{',
    ensures
        !all_digits(s),
        crate::grammar::int_spec(s) is None,
        !is_float_literal(commas_to_dots(s)),
        !eq_ignore_case(s, seq!['t', 'r', 'u', 'e']),
        !eq_ignore_case(s, seq!['f', 'a', 'l', 's', 'e']),
{
    assert(!is_digit(s[0]));
    let d = commas_to_dots(s);
    assert(d[0] == '{');
    assert(!is_mantissa(d)) by {
        assert(!(is_digit(d[0]) || d[0] == '.'));
    }
    assert forall|i: int| 0 <= i < d.len() && (d[i] == 'e' || d[i] == 'E') implies !is_mantissa(
        d.subrange(0, i),
    ) by {
        let m = d.subrange(0, i);
        assert(m[0] == '{');
        assert(!(is_digit(m[0]) || m[0] == '.'));
    }
    assert(!is_number(d));
    assert(!crate::grammar::same_letter(d[0], 'i'));
    assert(!crate::grammar::same_letter(d[0], 'n'));
    assert(!crate::grammar::same_letter(s[0], 't'));
    assert(!crate::grammar::same_letter(s[0], 'f'));
}

/// Joined tokens start with the first token's first character.
proof fn lemma_join_first(toks: Seq<Seq<char>>, c: char)
    requires
        toks.len() >= 1,
        toks[0].len() > 0,
    ensures
        join_with(toks, c).len() > 0 && join_with(toks, c)[0] == toks[0][0],
    decreases toks.len(),
{
    if toks.len() > 1 {
        lemma_join_first(toks.drop_last(), c);
    }
}

/// Joined tokens end with the last token's last character.
proof fn lemma_join_last(toks: Seq<Seq<char>>, c: char)
    requires
        toks.len() >= 1,
        toks.last().len() > 0,
    ensures
        join_with(toks, c).len() > 0 && join_with(toks, c).last() == toks.last().last(),
{
}

} // verus!
