//! Executable checks and cuts on character sequences, each proved against
//! its statement in [`crate::grammar`].
use vstd::prelude::*;
use crate::grammar::{
    all_digits, digits_value, dot_count, dots_at, first_dots, has_dots, int_literal, int_spec,
    is_digit, is_exponent, is_float_literal, is_mantissa, is_number, range_parts, commas_to_dots, eq_ignore_case, is_white, same_letter, split_on, strip_braces, trim, trim_end,
    trim_start,
};

verus! {

/// The models of a vector of character vectors.
pub open spec fn pieces_view(v: Seq<Vec<char>>) -> Seq<Seq<char>> {
    v.map_values(|p: Vec<char>| p@)
}

/// Whether a character is white space.
pub fn is_white_char(c: char) -> (r: bool)
    ensures
        r == is_white(c),
{
    ('\u{9}' <= c && c <= '\u{d}') || c == ' ' || c == '\u{85}' || c == '\u{a0}' || c == '\u{1680}'
        || ('\u{2000}' <= c && c <= '\u{200a}') || c == '\u{2028}' || c == '\u{2029}'
        || c == '\u{202f}' || c == '\u{205f}' || c == '\u{3000}'
}

/// The characters `lo..hi` of `s`.
pub fn slice_chars(s: &Vec<char>, lo: usize, hi: usize) -> (r: Vec<char>)
    requires
        lo <= hi <= s@.len(),
    ensures
        r@ == s@.subrange(lo as int, hi as int),
{
    let mut v: Vec<char> = Vec::new();
    let mut i: usize = lo;
    while i < hi
        invariant
            lo <= i <= hi <= s@.len(),
            v@ == s@.subrange(lo as int, i as int),
        decreases hi - i,
    {
        v.push(s[i]);
        i += 1;
        assert(v@ =~= s@.subrange(lo as int, i as int));
    }
    v
}

/// `s` without white space at either end.
pub fn trim_chars(s: &Vec<char>) -> (r: Vec<char>)
    ensures
        r@ == trim(s@),
{
    let n = s.len();
    let mut lo: usize = 0;
    assert(s@.subrange(0, n as int) =~= s@);
    while lo < n && is_white_char(s[lo])
        invariant
            lo <= n == s@.len(),
            trim_start(s@) == trim_start(s@.subrange(lo as int, n as int)),
        decreases n - lo,
    {
        assert(s@.subrange(lo as int, n as int).drop_first() =~= s@.subrange(lo + 1, n as int));
        lo += 1;
    }
    let mut hi: usize = n;
    let ghost t = s@.subrange(lo as int, n as int);
    assert(t.subrange(0, t.len() as int) =~= t);
    while hi > lo && is_white_char(s[hi - 1])
        invariant
            lo <= hi <= n == s@.len(),
            t == s@.subrange(lo as int, n as int),
            trim_end(t) == trim_end(s@.subrange(lo as int, hi as int)),
        decreases hi,
    {
        assert(s@.subrange(lo as int, hi as int).drop_last() =~= s@.subrange(lo as int, hi - 1));
        hi -= 1;
    }
    slice_chars(s, lo, hi)
}

/// The pieces of `s` between the separators `c`.
pub fn split_chars(s: &Vec<char>, c: char) -> (r: Vec<Vec<char>>)
    ensures
        pieces_view(r@) == split_on(s@, c),
{
    let mut done: Vec<Vec<char>> = Vec::new();
    let mut cur: Vec<char> = Vec::new();
    let mut i: usize = 0;
    assert(s@.subrange(0, 0) =~= Seq::<char>::empty());
    assert(pieces_view(done@).push(cur@) =~= split_on(s@.subrange(0, 0), c));
    while i < s.len()
        invariant
            i <= s@.len(),
            pieces_view(done@).push(cur@) == split_on(s@.subrange(0, i as int), c),
        decreases s.len() - i,
    {
        let ghost prev = s@.subrange(0, i as int);
        assert(s@.subrange(0, i + 1).drop_last() =~= prev);
        if s[i] == c {
            let old_cur = cur;
            proof {
                assert(pieces_view(done@.push(old_cur)) =~= pieces_view(done@).push(old_cur@));
            }
            done.push(old_cur);
            cur = Vec::new();
            assert(pieces_view(done@).push(cur@) =~= split_on(s@.subrange(0, i + 1), c));
        } else {
            cur.push(s[i]);
            assert(pieces_view(done@).push(cur@) =~= split_on(s@.subrange(0, i + 1), c));
        }
        i += 1;
    }
    assert(s@.subrange(0, s@.len() as int) =~= s@);
    proof {
        assert(pieces_view(done@.push(cur)) =~= pieces_view(done@).push(cur@));
    }
    done.push(cur);
    done
}

/// `s` without the `{` it starts with and the `}` it ends with.
pub fn strip_brace_chars(s: &Vec<char>) -> (r: Vec<char>)
    ensures
        r@ == strip_braces(s@),
{
    let n = s.len();
    let mut lo: usize = 0;
    assert(s@.subrange(0, n as int) =~= s@);
    while lo < n && s[lo] == '{'
        invariant
            lo <= n == s@.len(),
            strip_braces(s@) == strip_braces(s@.subrange(lo as int, n as int)),
        decreases n - lo,
    {
        assert(s@.subrange(lo as int, n as int).drop_first() =~= s@.subrange(lo + 1, n as int));
        lo += 1;
    }
    let mut hi: usize = n;
    while hi > lo && s[hi - 1] == '}'
        invariant
            lo <= hi <= n == s@.len(),
            lo < n ==> s@[lo as int] != '{',
            strip_braces(s@) == strip_braces(s@.subrange(lo as int, hi as int)),
        decreases hi,
    {
        assert(s@.subrange(lo as int, hi as int).drop_last() =~= s@.subrange(lo as int, hi - 1));
        hi -= 1;
    }
    slice_chars(s, lo, hi)
}

/// `s` with each `,` replaced by `.`.
pub fn commas_to_dot_chars(s: &Vec<char>) -> (r: Vec<char>)
    ensures
        r@ == commas_to_dots(s@),
{
    let mut v: Vec<char> = Vec::new();
    let mut i: usize = 0;
    while i < s.len()
        invariant
            i <= s@.len(),
            v@ == commas_to_dots(s@.subrange(0, i as int)),
        decreases s.len() - i,
    {
        v.push(if s[i] == ',' { '.' } else { s[i] });
        i += 1;
        assert(v@ =~= commas_to_dots(s@.subrange(0, i as int)));
    }
    assert(s@.subrange(0, i as int) =~= s@);
    v
}

/// Whether `s` equals a lower-case ASCII `word`, ignoring ASCII case.
pub fn eq_ignore_case_chars(s: &Vec<char>, word: &Vec<char>) -> (r: bool)
    ensures
        r == eq_ignore_case(s@, word@),
{
    if s.len() != word.len() {
        return false;
    }
    let mut i: usize = 0;
    while i < s.len()
        invariant
            i <= s@.len() == word@.len(),
            forall|j: int| 0 <= j < i ==> same_letter(#[trigger] s@[j], word@[j]),
        decreases s.len() - i,
    {
        let c = s[i];
        let w = word[i];
        if !(c == w || ('A' <= c && c <= 'Z' && (c as u32) + 32 == (w as u32))) {
            assert(!same_letter(s@[i as int], word@[i as int]));
            return false;
        }
        i += 1;
    }
    true
}


/// A string of digits stands for a number no smaller than any prefix of it.
proof fn lemma_digits_grow(d: Seq<char>, k: int)
    requires
        0 <= k <= d.len(),
        all_digits(d),
    ensures
        digits_value(d) >= digits_value(d.subrange(0, k)) >= 0,
    decreases d.len(),
{
    if k < d.len() {
        lemma_digits_grow(d.drop_last(), k);
        assert(d.drop_last().subrange(0, k) =~= d.subrange(0, k));
    } else {
        assert(d.subrange(0, k) =~= d);
        if d.len() > 0 {
            lemma_digits_grow(d.drop_last(), k - 1);
        }
    }
}

/// Reads a 32-bit integer literal.
pub fn int_of(s: &Vec<char>) -> (r: Option<i32>)
    ensures
        r == int_spec(s@),
{
    let n = s.len();
    if n == 0 {
        return None;
    }
    let neg = s[0] == '-';
    let start: usize = if s[0] == '+' || s[0] == '-' { 1 } else { 0 };
    if start == n {
        return None;
    }
    let ghost d = s@.subrange(start as int, n as int);
    assert(start == 1 ==> d =~= s@.drop_first());
    assert(start == 0 ==> d =~= s@);
    let mut acc: i64 = 0;
    let mut i: usize = start;
    assert(d.subrange(0, 0) =~= Seq::<char>::empty());
    while i < n
        invariant
            start <= i <= n == s@.len(),
            start < n,
            d == s@.subrange(start as int, n as int),
            int_literal(s@) == if all_digits(d) {
                Some(if neg { -digits_value(d) } else { digits_value(d) })
            } else {
                None::<int>
            },
            acc == digits_value(d.subrange(0, i - start)),
            0 <= acc <= 2147483648,
            forall|j: int| 0 <= j < i - start ==> is_digit(#[trigger] d[j]),
        decreases n - i,
    {
        let c = s[i];
        if !('0' <= c && c <= '9') {
            assert(!is_digit(d[i - start]));
            assert(!all_digits(d));
            return None;
        }
        assert(d.subrange(0, i + 1 - start).drop_last() =~= d.subrange(0, i - start));
        acc = acc * 10 + (c as u32 - '0' as u32) as i64;
        assert(acc == digits_value(d.subrange(0, i + 1 - start)));
        if acc > 2147483648 {
            proof {
                if all_digits(d) {
                    lemma_digits_grow(d, i + 1 - start);
                }
            }
            return None;
        }
        i += 1;
    }
    assert(d.subrange(0, n - start) =~= d);
    assert(all_digits(d));
    if neg {
        Some((-acc) as i32)
    } else if acc <= 2147483647 {
        Some(acc as i32)
    } else {
        None
    }
}

/// Whether `m` is a run of digits with at most one `.` and some digit.
pub fn is_mantissa_chars(m: &Vec<char>) -> (r: bool)
    ensures
        r == is_mantissa(m@),
{
    let mut has_digit = false;
    let mut dots: usize = 0;
    let mut i: usize = 0;
    assert(m@.subrange(0, 0) =~= Seq::<char>::empty());
    while i < m.len()
        invariant
            i <= m@.len(),
            dots <= i,
            dots == dot_count(m@.subrange(0, i as int)),
            has_digit == exists|j: int| 0 <= j < i && is_digit(#[trigger] m@[j]),
            forall|j: int| 0 <= j < i ==> is_digit(#[trigger] m@[j]) || m@[j] == '.',
        decreases m.len() - i,
    {
        let c = m[i];
        assert(m@.subrange(0, i + 1).drop_last() =~= m@.subrange(0, i as int));
        if '0' <= c && c <= '9' {
            has_digit = true;
        } else if c == '.' {
            dots += 1;
        } else {
            return false;
        }
        i += 1;
    }
    assert(m@.subrange(0, i as int) =~= m@);
    has_digit && dots <= 1
}

/// Whether `e` is an optional sign followed by at least one digit.
pub fn is_exponent_chars(e: &Vec<char>) -> (r: bool)
    ensures
        r == is_exponent(e@),
{
    let n = e.len();
    let start: usize = if n > 0 && (e[0] == '+' || e[0] == '-') { 1 } else { 0 };
    let ghost d = if n > 0 && (e@[0] == '+' || e@[0] == '-') { e@.drop_first() } else { e@ };
    assert(d =~= e@.subrange(start as int, n as int));
    if start == n {
        assert(d.len() == 0);
        return false;
    }
    let mut i: usize = start;
    while i < n
        invariant
            start <= i <= n == e@.len(),
            d == e@.subrange(start as int, n as int),
            is_exponent(e@) == (d.len() > 0 && all_digits(d)),
            forall|j: int| 0 <= j < i - start ==> is_digit(#[trigger] d[j]),
        decreases n - i,
    {
        if !('0' <= e[i] && e[i] <= '9') {
            assert(!is_digit(d[i - start]));
            return false;
        }
        i += 1;
    }
    true
}

/// Whether `d` is a mantissa with an optional exponent.
pub fn is_number_chars(d: &Vec<char>) -> (r: bool)
    ensures
        r == is_number(d@),
{
    let n = d.len();
    let mut i: usize = 0;
    while i < n && d[i] != 'e' && d[i] != 'E'
        invariant
            i <= n == d@.len(),
            forall|j: int| 0 <= j < i ==> d@[j] != 'e' && d@[j] != 'E',
        decreases n - i,
    {
        i += 1;
    }
    if i == n {
        return is_mantissa_chars(d);
    }
    let m = slice_chars(d, 0, i);
    let e = slice_chars(d, i + 1, n);
    let r = is_mantissa_chars(&m) && is_exponent_chars(&e);
    proof {
        assert(!is_mantissa(d@)) by {
            assert(!(is_digit(d@[i as int]) || d@[i as int] == '.'));
        }
        assert forall|j: int|
            0 <= j < d@.len() && (d@[j] == 'e' || d@[j] == 'E') && is_mantissa(d@.subrange(0, j))
                && #[trigger] is_exponent(d@.subrange(j + 1, d@.len() as int)) implies j == i by {
            if j > i {
                let p = d@.subrange(0, j);
                assert(!(is_digit(p[i as int]) || p[i as int] == '.'));
            }
        }
    }
    r
}

/// Whether `s` is a float literal as `f64::from_str` reads it.
pub fn is_float_chars(s: &Vec<char>) -> (r: bool)
    ensures
        r == is_float_literal(s@),
{
    let n = s.len();
    let start: usize = if n > 0 && (s[0] == '+' || s[0] == '-') { 1 } else { 0 };
    let d = slice_chars(s, start, n);
    assert(start == 1 ==> d@ =~= s@.drop_first());
    assert(start == 0 ==> d@ =~= s@);
    let inf = vec!['i', 'n', 'f'];
    let infinity = vec!['i', 'n', 'f', 'i', 'n', 'i', 't', 'y'];
    let nan = vec!['n', 'a', 'n'];
    assert(inf@ =~= seq!['i', 'n', 'f']);
    assert(infinity@ =~= seq!['i', 'n', 'f', 'i', 'n', 'i', 't', 'y']);
    assert(nan@ =~= seq!['n', 'a', 'n']);
    eq_ignore_case_chars(&d, &inf) || eq_ignore_case_chars(&d, &infinity) || eq_ignore_case_chars(
        &d,
        &nan,
    ) || is_number_chars(&d)
}

/// The model of the two sides of a range.
pub open spec fn parts_view(r: Option<(Vec<char>, Vec<char>)>) -> Option<(Seq<char>, Seq<char>)> {
    match r {
        Some((a, b)) => Some((a@, b@)),
        None => None,
    }
}

/// Splits the inside of a range at its only `..`.
pub fn range_parts_of(s: &Vec<char>) -> (r: Option<(Vec<char>, Vec<char>)>)
    ensures
        parts_view(r) == range_parts(s@),
{
    let n = s.len();
    if n < 2 {
        assert forall|q: int| !first_dots(s@, q) by {}
        return None;
    }
    let mut p: usize = 0;
    while p < n - 1 && !(s[p] == '.' && s[p + 1] == '.')
        invariant
            p <= n == s@.len(),
            n >= 2,
            forall|i: int| 0 <= i < p ==> !dots_at(s@, i),
        decreases n - p,
    {
        p += 1;
    }
    if p >= n - 1 {
        assert forall|q: int| !first_dots(s@, q) by {
            if dots_at(s@, q) {
                assert(!dots_at(s@, q));
            }
        }
        return None;
    }
    assert(first_dots(s@, p as int));
    let ghost rest = s@.subrange(p + 2, n as int);
    let mut k: usize = p + 2;
    while k < n - 1 && !(s[k] == '.' && s[k + 1] == '.')
        invariant
            p + 2 <= k <= n || (k == p + 2 && p + 2 > n),
            n >= 2,
            n == s@.len(),
            p + 1 < n,
            rest == s@.subrange(p + 2, n as int),
            forall|i: int| 0 <= i < k - (p + 2) ==> !dots_at(rest, i),
        decreases n - k,
    {
        k += 1;
    }
    proof {
        assert forall|q: int| first_dots(s@, q) implies q == p by {
            if q < p {
                assert(!dots_at(s@, q));
            }
            if q > p {
                assert(dots_at(s@, p as int));
            }
        }
    }
    if k < n - 1 {
        assert(dots_at(rest, k - (p + 2)));
        return None;
    }
    assert(!has_dots(rest));
    Some((slice_chars(s, 0, p), slice_chars(s, p + 2, n)))
}

} // verus!
