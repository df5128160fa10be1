//! Splitting a line into tokens.
use vstd::prelude::*;
use crate::text::{chars_of, substring};

verus! {

/// Whether a character separates tokens outside quoted text.
pub open spec fn is_space(c: char) -> bool {
    c == ' ' || c == '\t' || c == '\n' || c == '\r'
}

/// The tokens of `s` from position `i` on, where `start` is where the
/// current token began, `quoted` tells whether a `"` is open, and `acc`
/// holds the tokens already found.
///
/// A `"` opens or closes quoted text; closing it ends a token that keeps
/// both quotes. Outside quoted text a space ends a non-empty token. What is
/// left at the end, an unterminated quote included, is the last token.
pub open spec fn scan(
    s: Seq<char>,
    i: int,
    start: int,
    quoted: bool,
    acc: Seq<Seq<char>>,
) -> Seq<Seq<char>>
    decreases s.len() - i,
{
    if i < 0 || i >= s.len() {
        if 0 <= start < s.len() {
            acc.push(s.subrange(start, s.len() as int))
        } else {
            acc
        }
    } else if s[i] == '"' {
        if quoted {
            scan(s, i + 1, i + 1, false, acc.push(s.subrange(start, i + 1)))
        } else {
            scan(s, i + 1, start, true, acc)
        }
    } else if is_space(s[i]) && !quoted {
        if i > start {
            scan(s, i + 1, i + 1, false, acc.push(s.subrange(start, i)))
        } else {
            scan(s, i + 1, i + 1, false, acc)
        }
    } else {
        scan(s, i + 1, start, quoted, acc)
    }
}

/// The tokens of a line.
pub open spec fn tokens_of(s: Seq<char>) -> Seq<Seq<char>> {
    scan(s, 0, 0, false, Seq::empty())
}

/// The models of a vector of strings.
pub open spec fn strings_view(v: Seq<String>) -> Seq<Seq<char>> {
    v.map_values(|t: String| t@)
}

/// Splits a line into tokens.
pub fn tokenize(input: &str) -> (r: Vec<String>)
    ensures
        strings_view(r@) == tokens_of(input@),
{
    let cs = chars_of(input);
    let mut tokens: Vec<String> = Vec::new();
    let mut quoted = false;
    let mut start: usize = 0;
    let mut i: usize = 0;
    assert(strings_view(tokens@) =~= Seq::<Seq<char>>::empty());
    while i < cs.len()
        invariant
            0 <= start <= i <= cs@.len(),
            cs@ == input@,
            scan(cs@, i as int, start as int, quoted, strings_view(tokens@)) == tokens_of(input@),
        decreases cs.len() - i,
    {
        let c = cs[i];
        if c == '"' {
            if quoted {
                let t = substring(&cs, start, i + 1);
                proof {
                    assert(strings_view(tokens@.push(t)) =~= strings_view(tokens@).push(t@));
                }
                tokens.push(t);
                quoted = false;
                start = i + 1;
            } else {
                quoted = true;
            }
        } else if (c == ' ' || c == '\t' || c == '\n' || c == '\r') && !quoted {
            if i > start {
                let t = substring(&cs, start, i);
                proof {
                    assert(strings_view(tokens@.push(t)) =~= strings_view(tokens@).push(t@));
                }
                tokens.push(t);
            }
            start = i + 1;
        }
        i += 1;
    }
    if start < cs.len() {
        let t = substring(&cs, start, cs.len());
        proof {
            assert(strings_view(tokens@.push(t)) =~= strings_view(tokens@).push(t@));
        }
        tokens.push(t);
    }
    tokens
}

} // verus!
