//! Evaluating lines: the dispatcher, `if`, closures and the list
//! combinators.
//!
//! Closures and blocks run against the live stack: a quotation applied by
//! `map`, `each` or `foldl` sees, and may consume, whatever lies below the
//! list it was given. An `if` block runs like the rest of its line, so the
//! values it leaves on the stack stay there.
use vstd::prelude::*;
use crate::host::Host;
use crate::lexical::{pieces_view, split_chars};
use crate::grammar::{erase, int_spec, is_float_literal, parse_spec, split_on};
use crate::ops::{
    trunc_div, append_spec, binary_ok, cons_spec, dup_spec, equal_spec, not_value, pop_spec, swap_spec,
    unary_spec, BinOp,
};
use crate::parser::parse_chars;
use crate::render::{all_float_free, join_with, render, render_spec};
use crate::stack::{lookup_spec, table_map, words_spec, Stack, MAX_DEPTH};
use crate::text::{chars_of, same_chars, string_of};
use crate::tokenizer::{tokenize, tokens_of};
use crate::value::{
    copy_all, head_spec, is_empty_spec, length_spec, lemma_views, tail_spec, views, EvalError,
    StackValue, Val,
};

verus! {

broadcast use lemma_views;

/// Whether a token is the keyword `kw`.
fn is_kw(t: &Vec<char>, kw: &str) -> (r: bool)
    ensures
        r == (t@ == kw@),
{
    let k = chars_of(kw);
    same_chars(t, &k)
}

/// Whether a token is the single character `c`.
fn is_char_token(t: &Vec<char>, c: char) -> (r: bool)
    ensures
        r == (t@ == seq![c]),
{
    if t.len() == 1 && t[0] == c {
        assert(t@ =~= seq![c]);
        true
    } else {
        false
    }
}

/// Where the `}` that closes a block stands, the block's tokens starting at
/// `i` at brace depth `depth`: `{` and `}` tokens inside it nest.
pub open spec fn block_end(toks: Seq<Seq<char>>, i: int, depth: nat) -> Option<int>
    decreases toks.len() - i,
{
    if i < 0 || i >= toks.len() {
        None
    } else if toks[i] == seq!['}'] {
        if depth <= 1 {
            Some(i)
        } else {
            block_end(toks, i + 1, (depth - 1) as nat)
        }
    } else if toks[i] == seq!['{'] {
        block_end(toks, i + 1, depth + 1)
    } else {
        block_end(toks, i + 1, depth)
    }
}

/// The parts of `if { T } { F }`, where the token after `if` stands at
/// `p`: the token ranges of `T` and of `F`, and where the construct ends.
/// Without a second block, `F` is empty.
pub open spec fn if_spec(toks: Seq<Seq<char>>, p: int) -> Result<(int, int, int, int, int), EvalError> {
    if !(0 <= p < toks.len() && toks[p] == seq!['{']) {
        Err(EvalError::Structure)
    } else {
        match block_end(toks, p + 1, 1) {
            None => Err(EvalError::Structure),
            Some(e1) => if e1 + 1 < toks.len() && toks[e1 + 1] == seq!['{'] {
                match block_end(toks, e1 + 2, 1) {
                    None => Err(EvalError::Structure),
                    Some(e2) => Ok((p + 1, e1, e1 + 2, e2, e2 + 1)),
                }
            } else {
                Ok((p + 1, e1, e1 + 1, e1 + 1, e1 + 1))
            },
        }
    }
}

/// A block ends at or after where it starts, within the tokens.
proof fn lemma_block_end_bounds(toks: Seq<Seq<char>>, i: int, depth: nat)
    ensures
        match block_end(toks, i, depth) {
            Some(e) => i <= e < toks.len(),
            None => true,
        },
    decreases toks.len() - i,
{
    if 0 <= i < toks.len() {
        if toks[i] == seq!['}'] {
            if depth > 1 {
                lemma_block_end_bounds(toks, i + 1, (depth - 1) as nat);
            }
        } else if toks[i] == seq!['{'] {
            lemma_block_end_bounds(toks, i + 1, depth + 1);
        } else {
            lemma_block_end_bounds(toks, i + 1, depth);
        }
    }
}

/// The built-in words that make one step on the stack alone.
#[derive(Debug, Clone, Copy, PartialEq, Eq, Structural)]
pub enum Word {
    Dup,
    Swap,
    Pop,
    ParseInteger,
    ParseFloat,
    Words,
    Binary(BinOp),
    Equal,
    Not,
    Head,
    Tail,
    Empty,
    Length,
    Cons,
    Append,
}

/// The word a token names, if it is one of [`Word`]; `None` for the
/// words that read further tokens, bind names, run code or do input and
/// output, and for everything else.
pub open spec fn word_of(t: Seq<char>) -> Option<Word> {
    if t == "if"@ || t == "push"@ || t == "map"@ || t == "each"@ || t == "foldl"@ {
        None
    } else if t == "dup"@ {
        Some(Word::Dup)
    } else if t == "swap"@ {
        Some(Word::Swap)
    } else if t == "pop"@ {
        Some(Word::Pop)
    } else if t == ":="@ {
        None
    } else if t == "parseInteger"@ {
        Some(Word::ParseInteger)
    } else if t == "parseFloat"@ {
        Some(Word::ParseFloat)
    } else if t == "words"@ {
        Some(Word::Words)
    } else if t == "print"@ || t == "read"@ || t == "exec"@ {
        None
    } else if t == "+"@ {
        Some(Word::Binary(BinOp::Add))
    } else if t == "-"@ {
        Some(Word::Binary(BinOp::Sub))
    } else if t == "*"@ {
        Some(Word::Binary(BinOp::Mul))
    } else if t == "/"@ {
        Some(Word::Binary(BinOp::FDiv))
    } else if t == "div"@ {
        Some(Word::Binary(BinOp::Div))
    } else if t == "<"@ {
        Some(Word::Binary(BinOp::Lt))
    } else if t == ">"@ {
        Some(Word::Binary(BinOp::Gt))
    } else if t == "&&"@ {
        Some(Word::Binary(BinOp::And))
    } else if t == "||"@ {
        Some(Word::Binary(BinOp::Or))
    } else if t == "=="@ {
        Some(Word::Equal)
    } else if t == "not"@ {
        Some(Word::Not)
    } else if t == "head"@ {
        Some(Word::Head)
    } else if t == "tail"@ {
        Some(Word::Tail)
    } else if t == "empty"@ {
        Some(Word::Empty)
    } else if t == "length"@ {
        Some(Word::Length)
    } else if t == "cons"@ {
        Some(Word::Cons)
    } else if t == "append"@ {
        Some(Word::Append)
    } else {
        None
    }
}

/// Whether `r` and the stack `t` after it are what a step that ends in
/// `spec` allows from `s`; after an error the stack is not looked at.
pub open spec fn follows(spec: Result<Seq<Val>, EvalError>, t: Seq<Val>, r: Result<(), EvalError>) -> bool {
    match spec {
        Ok(u) => r is Ok && t == u,
        Err(e) => r == Err::<(), EvalError>(e),
    }
}

/// What word `w` does: `r` and the stack `t` after it, from stack `s`.
pub open spec fn word_effect(w: Word, s: Seq<Val>, t: Seq<Val>, r: Result<(), EvalError>) -> bool {
    match w {
        Word::Dup => follows(dup_spec(s), t, r),
        Word::Swap => follows(swap_spec(s), t, r),
        Word::Pop => follows(pop_spec(s), t, r),
        Word::Cons => follows(cons_spec(s), t, r),
        Word::Append => follows(append_spec(s), t, r),
        Word::Equal => follows(equal_spec(s), t, r),
        Word::Not => follows(unary_spec(s, not_value(s.last())), t, r),
        Word::Head => follows(unary_spec(s, head_spec(s.last())), t, r),
        Word::Tail => follows(unary_spec(s, tail_spec(s.last())), t, r),
        Word::Empty => follows(unary_spec(s, is_empty_spec(s.last())), t, r),
        Word::Length => follows(unary_spec(s, length_spec(s.last())), t, r),
        Word::Binary(op) => if s.len() < 2 {
            r == Err::<(), EvalError>(EvalError::Arity)
        } else {
            match r {
                Ok(_) => t.len() == s.len() - 1 && t.drop_last() == s.drop_last().drop_last()
                    && binary_ok(op, s[s.len() - 2], s.last(), Ok(t.last())),
                Err(e) => binary_ok(op, s[s.len() - 2], s.last(), Err(e)),
            }
        },
        Word::ParseInteger => if s.len() == 0 {
            r == Err::<(), EvalError>(EvalError::Arity)
        } else {
            match s.last() {
                Val::Text(x) => match int_spec(x) {
                    Some(i) => r is Ok && t == s.drop_last().push(Val::Int(i)),
                    None => r == Err::<(), EvalError>(EvalError::Parse),
                },
                _ => r == Err::<(), EvalError>(EvalError::Type),
            }
        },
        Word::ParseFloat => if s.len() == 0 {
            r == Err::<(), EvalError>(EvalError::Arity)
        } else {
            match s.last() {
                Val::Text(x) => if is_float_literal(x) {
                    r is Ok && t.drop_last() == s.drop_last() && t.len() == s.len() && t.last() is Float
                } else {
                    r == Err::<(), EvalError>(EvalError::Parse)
                },
                _ => r == Err::<(), EvalError>(EvalError::Type),
            }
        },
        Word::Words => if s.len() == 0 {
            r == Err::<(), EvalError>(EvalError::Arity)
        } else {
            match s.last() {
                Val::Text(x) => r is Ok && t == s.drop_last().push(
                    Val::List(words_spec(x).map_values(|w: Seq<char>| Val::Text(w))),
                ),
                _ => r == Err::<(), EvalError>(EvalError::Type),
            }
        },
    }
}

/// One token of a line that makes a single step: a word on the stack, a
/// binding by `:=`, or a literal or name whose value is pushed.
pub enum Step {
    Word(Word),
    Assign,
    Literal(Seq<char>),
    /// A value of a quotation body, pushed as it is.
    Value(Val),
    /// A quotation nested in a quotation body, which cannot run.
    Reject,
}

/// Whether a token, split at its spaces, reads `name := value`.
pub open spec fn is_assignment_form(t: Seq<char>) -> bool {
    split_on(t, ' ').len() == 3 && split_on(t, ' ')[1] == ":="@
}

/// The step a token makes, if it makes one: `None` for the words that
/// read further tokens, run code or do input and output, and for the
/// assignment form `name := value`.
pub open spec fn step_of(t: Seq<char>) -> Option<Step> {
    match word_of(t) {
        Some(w) => Some(Step::Word(w)),
        None => if t == ":="@ {
            Some(Step::Assign)
        } else if t == "if"@ || t == "push"@ || t == "map"@ || t == "each"@ || t == "foldl"@
            || t == "print"@ || t == "read"@ || t == "exec"@ || is_assignment_form(t) {
            None
        } else {
            Some(Step::Literal(t))
        },
    }
}

/// What a literal or name token does under bindings `env`: it pushes the
/// value bound to it, or else the value it spells (floats up to their
/// bits), or fails as reading it fails.
pub open spec fn literal_effect(
    env: Map<Seq<char>, Val>,
    x: Seq<char>,
    s: Seq<Val>,
    t: Seq<Val>,
    r: Result<(), EvalError>,
) -> bool {
    if env.contains_key(x) {
        r is Ok && t == s.push(env[x])
    } else {
        match parse_spec(x) {
            Ok(v) => r is Ok && t.len() == s.len() + 1 && t.drop_last() == s && erase(t.last()) == v,
            Err(e) => r == Err::<(), EvalError>(e),
        }
    }
}

/// What `:=` does: pops a value and a symbol below it and binds the
/// symbol's name to the value.
pub open spec fn assign_effect(
    env: Map<Seq<char>, Val>,
    s: Seq<Val>,
    env2: Map<Seq<char>, Val>,
    t: Seq<Val>,
    r: Result<(), EvalError>,
) -> bool {
    if s.len() < 2 {
        r == Err::<(), EvalError>(EvalError::Arity)
    } else {
        match s[s.len() - 2] {
            Val::Symbol(n) => r is Ok && t == s.drop_last().drop_last() && env2 == env.insert(n, s.last()),
            _ => r == Err::<(), EvalError>(EvalError::Type),
        }
    }
}

/// What a step does: `r`, and the bindings `env2` and stack `t` after it,
/// from bindings `env` and stack `s`.
pub open spec fn step_effect(
    st: Step,
    env: Map<Seq<char>, Val>,
    s: Seq<Val>,
    env2: Map<Seq<char>, Val>,
    t: Seq<Val>,
    r: Result<(), EvalError>,
) -> bool {
    match st {
        Step::Word(w) => word_effect(w, s, t, r) && (r is Ok ==> env2 == env),
        Step::Literal(x) => literal_effect(env, x, s, t, r) && (r is Ok ==> env2 == env),
        Step::Assign => assign_effect(env, s, env2, t, r),
        Step::Value(v) => r is Ok && t == s.push(v) && env2 == env,
        Step::Reject => r == Err::<(), EvalError>(EvalError::Type),
    }
}

/// Whether every token makes a step.
pub open spec fn all_steps(toks: Seq<Seq<char>>) -> bool {
    forall|i: int| 0 <= i < toks.len() ==> #[trigger] step_of(toks[i]) is Some
}

/// The steps the tokens make.
pub open spec fn steps_in(toks: Seq<Seq<char>>) -> Seq<Step> {
    toks.map_values(|t: Seq<char>| step_of(t)->Some_0)
}

/// What a line of steps does: `r`, and the bindings `env2` and stack `t`
/// after it, from bindings `env` and stack `s`. The steps apply in order;
/// the first that fails ends the line with its error.
pub open spec fn line_effect(
    sts: Seq<Step>,
    env: Map<Seq<char>, Val>,
    s: Seq<Val>,
    env2: Map<Seq<char>, Val>,
    t: Seq<Val>,
    r: Result<(), EvalError>,
) -> bool
    decreases sts.len(),
{
    if sts.len() == 0 {
        r is Ok && t == s && env2 == env
    } else if r is Err && step_effect(sts[0], env, s, env2, t, r) {
        true
    } else {
        exists|em: Map<Seq<char>, Val>, m: Seq<Val>|
            #[trigger] step_effect(sts[0], env, s, em, m, Ok(())) && line_effect(
                sts.drop_first(),
                em,
                m,
                env2,
                t,
                r,
            )
    }
}

/// One more step after a line that went through.
proof fn lemma_line_step(
    sts: Seq<Step>,
    st: Step,
    env: Map<Seq<char>, Val>,
    s: Seq<Val>,
    em: Map<Seq<char>, Val>,
    m: Seq<Val>,
    env2: Map<Seq<char>, Val>,
    t: Seq<Val>,
    r: Result<(), EvalError>,
)
    requires
        line_effect(sts, env, s, em, m, Ok(())),
        step_effect(st, em, m, env2, t, r),
    ensures
        line_effect(sts.push(st), env, s, env2, t, r),
    decreases sts.len(),
{
    if sts.len() == 0 {
        assert(sts.push(st).drop_first() =~= Seq::<Step>::empty());
        assert(sts.push(st)[0] == st);
        if r is Ok {
            assert(step_effect(sts.push(st)[0], env, s, env2, t, Ok(())) && line_effect(
                sts.push(st).drop_first(),
                env2,
                t,
                env2,
                t,
                r,
            ));
        }
    } else {
        let (e1, m1) = choose|e1: Map<Seq<char>, Val>, m1: Seq<Val>|
            #[trigger] step_effect(sts[0], env, s, e1, m1, Ok(())) && line_effect(
                sts.drop_first(),
                e1,
                m1,
                em,
                m,
                Ok(()),
            );
        lemma_line_step(sts.drop_first(), st, e1, m1, em, m, env2, t, r);
        assert(sts.push(st).drop_first() =~= sts.drop_first().push(st));
        assert(sts.push(st)[0] == sts[0]);
        assert(step_effect(sts.push(st)[0], env, s, e1, m1, Ok(())) && line_effect(
            sts.push(st).drop_first(),
            e1,
            m1,
            env2,
            t,
            r,
        ));
    }
}

/// A line that failed still fails with more steps after it.
proof fn lemma_line_err_extend(
    p: Seq<Step>,
    q: Seq<Step>,
    env: Map<Seq<char>, Val>,
    s: Seq<Val>,
    env2: Map<Seq<char>, Val>,
    t: Seq<Val>,
    e: EvalError,
)
    requires
        line_effect(p, env, s, env2, t, Err(e)),
    ensures
        line_effect(p + q, env, s, env2, t, Err(e)),
    decreases p.len(),
{
    assert((p + q)[0] == p[0]);
    if !step_effect(p[0], env, s, env2, t, Err(e)) {
        let (e1, m) = choose|e1: Map<Seq<char>, Val>, m: Seq<Val>|
            #[trigger] step_effect(p[0], env, s, e1, m, Ok(())) && line_effect(
                p.drop_first(),
                e1,
                m,
                env2,
                t,
                Err(e),
            );
        lemma_line_err_extend(p.drop_first(), q, e1, m, env2, t, e);
        assert((p + q).drop_first() =~= p.drop_first() + q);
        assert(step_effect((p + q)[0], env, s, e1, m, Ok(())) && line_effect(
            (p + q).drop_first(),
            e1,
            m,
            env2,
            t,
            Err(e),
        ));
    }
}

/// After an error the bindings and the stack a line leaves are not looked
/// at.
proof fn lemma_line_err_any(
    sts: Seq<Step>,
    env: Map<Seq<char>, Val>,
    s: Seq<Val>,
    env2: Map<Seq<char>, Val>,
    t: Seq<Val>,
    env3: Map<Seq<char>, Val>,
    u: Seq<Val>,
    e: EvalError,
)
    requires
        line_effect(sts, env, s, env2, t, Err(e)),
    ensures
        line_effect(sts, env, s, env3, u, Err(e)),
    decreases sts.len(),
{
    if !step_effect(sts[0], env, s, env2, t, Err(e)) {
        let (e1, m) = choose|e1: Map<Seq<char>, Val>, m: Seq<Val>|
            #[trigger] step_effect(sts[0], env, s, e1, m, Ok(())) && line_effect(
                sts.drop_first(),
                e1,
                m,
                env2,
                t,
                Err(e),
            );
        lemma_line_err_any(sts.drop_first(), e1, m, env2, t, env3, u, e);
        assert(step_effect(sts[0], env, s, e1, m, Ok(())) && line_effect(
            sts.drop_first(),
            e1,
            m,
            env3,
            u,
            Err(e),
        ));
    }
}

/// On a non-empty stack the line `dup pop` goes through and leaves the
/// stack and the bindings as they were.
pub proof fn lemma_dup_pop_line(
    env: Map<Seq<char>, Val>,
    s: Seq<Val>,
    env2: Map<Seq<char>, Val>,
    t: Seq<Val>,
    r: Result<(), EvalError>,
)
    requires
        s.len() >= 1,
        line_effect(seq![Step::Word(Word::Dup), Step::Word(Word::Pop)], env, s, env2, t, r),
    ensures
        r is Ok,
        t == s,
        env2 == env,
{
    let sts = seq![Step::Word(Word::Dup), Step::Word(Word::Pop)];
    assert(sts[0] == Step::Word(Word::Dup));
    let (e1, m) = choose|e1: Map<Seq<char>, Val>, m: Seq<Val>|
        #[trigger] step_effect(sts[0], env, s, e1, m, Ok(())) && line_effect(sts.drop_first(), e1, m, env2, t, r);
    assert(m == s.push(s.last()));
    let rest = sts.drop_first();
    assert(rest =~= seq![Step::Word(Word::Pop)]);
    assert(rest[0] == Step::Word(Word::Pop));
    let (e2, m2) = choose|e2: Map<Seq<char>, Val>, m2: Seq<Val>|
        #[trigger] step_effect(rest[0], e1, m, e2, m2, Ok(())) && line_effect(rest.drop_first(), e2, m2, env2, t, r);
    assert(m2 == m.drop_last());
    assert(rest.drop_first() =~= Seq::<Step>::empty());
    assert(m.drop_last() =~= s);
}

/// The effect of a line of two literals, not bound as names, and a word:
/// the word applied to the two values pushed, whose floats hold some bits.
proof fn lemma_two_literals(
    env: Map<Seq<char>, Val>,
    ta: Seq<char>,
    tb: Seq<char>,
    va: Val,
    vb: Val,
    w: Word,
    s: Seq<Val>,
    env2: Map<Seq<char>, Val>,
    t: Seq<Val>,
    r: Result<(), EvalError>,
) -> (pushed: (Val, Val))
    requires
        !env.contains_key(ta),
        !env.contains_key(tb),
        parse_spec(ta) == Ok::<Val, EvalError>(va),
        parse_spec(tb) == Ok::<Val, EvalError>(vb),
        line_effect(seq![Step::Literal(ta), Step::Literal(tb), Step::Word(w)], env, s, env2, t, r),
    ensures
        erase(pushed.0) == va,
        erase(pushed.1) == vb,
        word_effect(w, s.push(pushed.0).push(pushed.1), t, r),
        r is Ok ==> env2 == env,
{
    let sts = seq![Step::Literal(ta), Step::Literal(tb), Step::Word(w)];
    assert(sts[0] == Step::Literal(ta));
    let (e1, m1) = choose|e1: Map<Seq<char>, Val>, m: Seq<Val>|
        #[trigger] step_effect(sts[0], env, s, e1, m, Ok(())) && line_effect(sts.drop_first(), e1, m, env2, t, r);
    let rest = sts.drop_first();
    assert(rest =~= seq![Step::Literal(tb), Step::Word(w)]);
    assert(rest[0] == Step::Literal(tb));
    let (e2, m2) = choose|e2: Map<Seq<char>, Val>, m: Seq<Val>|
        #[trigger] step_effect(rest[0], e1, m1, e2, m, Ok(())) && line_effect(rest.drop_first(), e2, m, env2, t, r);
    let last = rest.drop_first();
    assert(last =~= seq![Step::Word(w)]);
    assert(last[0] == Step::Word(w));
    assert(last.drop_first() =~= Seq::<Step>::empty());
    let pa = m1.last();
    let pb = m2.last();
    assert(m1 =~= s.push(pa));
    assert(m2 =~= m1.push(pb));
    if !(r is Err && step_effect(last[0], e2, m2, env2, t, r)) {
        let (e3, m3) = choose|e3: Map<Seq<char>, Val>, m: Seq<Val>|
            #[trigger] step_effect(last[0], e2, m2, e3, m, Ok(())) && line_effect(last.drop_first(), e3, m, env2, t, r);
        assert(t == m3);
    }
    (pa, pb)
}

/// A text that reads as a 32-bit integer parses to that integer.
proof fn lemma_int_literal(x: Seq<char>)
    requires
        int_spec(x) is Some,
    ensures
        parse_spec(x) == Ok::<Val, EvalError>(Val::Int(int_spec(x)->Some_0)),
{
    assert(x.len() > 0);
    if !(x[0] == '+' || x[0] == '-') {
        assert(crate::grammar::is_digit(x[0]));
    }
    assert(x[0] != '[');
}

/// The line `a b div`, for integer literals `a` and `b` that are not bound
/// as names and `b` not zero, pushes `a` divided by `b` rounded toward
/// zero, or fails with an arithmetic error when that does not fit, which is
/// only for `i32::MIN div -1`; `a b /` pushes a float.
pub proof fn lemma_div_line(
    env: Map<Seq<char>, Val>,
    ta: Seq<char>,
    tb: Seq<char>,
    s: Seq<Val>,
    env2: Map<Seq<char>, Val>,
    t: Seq<Val>,
    r: Result<(), EvalError>,
    op: BinOp,
)
    requires
        int_spec(ta) is Some,
        int_spec(tb) is Some,
        int_spec(tb)->Some_0 != 0,
        !env.contains_key(ta),
        !env.contains_key(tb),
        op == BinOp::Div || op == BinOp::FDiv,
        line_effect(
            seq![Step::Literal(ta), Step::Literal(tb), Step::Word(Word::Binary(op))],
            env,
            s,
            env2,
            t,
            r,
        ),
    ensures
        ({
            let a = int_spec(ta)->Some_0;
            let b = int_spec(tb)->Some_0;
            &&& op == BinOp::Div && !(a == i32::MIN && b == -1) ==> r is Ok && t == s.push(
                Val::Int(trunc_div(a as int, b as int) as i32),
            )
            &&& op == BinOp::Div && a == i32::MIN && b == -1 ==> r == Err::<(), EvalError>(
                EvalError::Arithmetic,
            )
            &&& op == BinOp::FDiv ==> r is Ok && t.len() == s.len() + 1 && t.drop_last() == s
                && t.last() is Float
        }),
{
    let a = int_spec(ta)->Some_0;
    let b = int_spec(tb)->Some_0;
    lemma_int_literal(ta);
    lemma_int_literal(tb);
    let (pa, pb) = lemma_two_literals(env, ta, tb, Val::Int(a), Val::Int(b), Word::Binary(op), s, env2, t, r);
    assert(pa == Val::Int(a));
    assert(pb == Val::Int(b));
    let st = s.push(pa).push(pb);
    assert(st[st.len() - 2] == pa);
    assert(st.last() == pb);
    assert(st.drop_last().drop_last() =~= s);
    crate::ops::lemma_div_truncates(a, b);
    if r is Ok {
        assert(t =~= t.drop_last().push(t.last()));
    }
}

/// The line `a b +`, for an integer literal and a float literal in either
/// order, neither bound as a name, is a type error.
pub proof fn lemma_mixed_add_line(
    env: Map<Seq<char>, Val>,
    ta: Seq<char>,
    tb: Seq<char>,
    s: Seq<Val>,
    env2: Map<Seq<char>, Val>,
    t: Seq<Val>,
    r: Result<(), EvalError>,
)
    requires
        (int_spec(ta) is Some && parse_spec(tb) == Ok::<Val, EvalError>(Val::Float(0))) || (
        parse_spec(ta) == Ok::<Val, EvalError>(Val::Float(0)) && int_spec(tb) is Some),
        !env.contains_key(ta),
        !env.contains_key(tb),
        line_effect(
            seq![Step::Literal(ta), Step::Literal(tb), Step::Word(Word::Binary(BinOp::Add))],
            env,
            s,
            env2,
            t,
            r,
        ),
    ensures
        r == Err::<(), EvalError>(EvalError::Type),
{
    let va = parse_spec(ta)->Ok_0;
    let vb = parse_spec(tb)->Ok_0;
    if int_spec(ta) is Some && parse_spec(tb) == Ok::<Val, EvalError>(Val::Float(0)) {
        lemma_int_literal(ta);
    } else {
        lemma_int_literal(tb);
    }
    let (pa, pb) = lemma_two_literals(env, ta, tb, va, vb, Word::Binary(BinOp::Add), s, env2, t, r);
    let st = s.push(pa).push(pb);
    assert(st[st.len() - 2] == pa);
    assert(st.last() == pb);
}

/// The steps one element of a quotation body makes when it runs: a
/// symbol runs its text as a line, a nested quotation is rejected, any
/// other value is pushed.
pub open spec fn elem_steps(v: Val) -> Seq<Step> {
    match v {
        Val::Symbol(n) => steps_in(tokens_of(n)),
        Val::Quotation(_) => seq![Step::Reject],
        _ => seq![Step::Value(v)],
    }
}

/// The steps a quotation body makes, element after element.
pub open spec fn body_steps(q: Seq<Val>) -> Seq<Step>
    decreases q.len(),
{
    if q.len() == 0 {
        Seq::empty()
    } else {
        body_steps(q.drop_last()) + elem_steps(q.last())
    }
}

/// Whether each symbol of a quotation body is a line of steps (see
/// [`step_of`]), so that what the body does is stated by [`body_steps`].
pub open spec fn simple_body(q: Seq<Val>) -> bool {
    forall|i: int| 0 <= i < q.len() ==> (#[trigger] q[i] is Symbol ==> all_steps(tokens_of(q[i]->Symbol_0)))
}

/// The steps of a body are those of a prefix followed by those of the rest.
proof fn lemma_body_steps_split(q: Seq<Val>, k: int)
    requires
        0 <= k <= q.len(),
    ensures
        body_steps(q) == body_steps(q.subrange(0, k)) + body_steps(q.subrange(k, q.len() as int)),
    decreases q.len(),
{
    if k == q.len() {
        assert(q.subrange(0, k) =~= q);
        assert(body_steps(q.subrange(k, q.len() as int)) =~= Seq::<Step>::empty());
        assert(body_steps(q) + Seq::<Step>::empty() =~= body_steps(q));
    } else {
        let q0 = q.drop_last();
        lemma_body_steps_split(q0, k);
        assert(q0.subrange(0, k) =~= q.subrange(0, k));
        let tail = q.subrange(k, q.len() as int);
        assert(tail.drop_last() =~= q0.subrange(k, q0.len() as int));
        assert(tail.last() == q.last());
        assert(body_steps(q) =~= body_steps(q.subrange(0, k)) + body_steps(tail));
    }
}

/// Two lines run one after the other make the line of both.
proof fn lemma_line_concat(
    a: Seq<Step>,
    b: Seq<Step>,
    env: Map<Seq<char>, Val>,
    s: Seq<Val>,
    em: Map<Seq<char>, Val>,
    m: Seq<Val>,
    env2: Map<Seq<char>, Val>,
    t: Seq<Val>,
    r: Result<(), EvalError>,
)
    requires
        line_effect(a, env, s, em, m, Ok(())),
        line_effect(b, em, m, env2, t, r),
    ensures
        line_effect(a + b, env, s, env2, t, r),
    decreases a.len(),
{
    if a.len() == 0 {
        assert(a + b =~= b);
    } else {
        let (e1, m1) = choose|e1: Map<Seq<char>, Val>, m1: Seq<Val>|
            #[trigger] step_effect(a[0], env, s, e1, m1, Ok(())) && line_effect(
                a.drop_first(),
                e1,
                m1,
                em,
                m,
                Ok(()),
            );
        lemma_line_concat(a.drop_first(), b, e1, m1, em, m, env2, t, r);
        assert((a + b).drop_first() =~= a.drop_first() + b);
        assert((a + b)[0] == a[0]);
        assert(step_effect((a + b)[0], env, s, e1, m1, Ok(())) && line_effect(
            (a + b).drop_first(),
            e1,
            m1,
            env2,
            t,
            r,
        ));
    }
}

/// A line of one step does what the step does.
proof fn lemma_line_single(
    st: Step,
    env: Map<Seq<char>, Val>,
    s: Seq<Val>,
    env2: Map<Seq<char>, Val>,
    t: Seq<Val>,
    r: Result<(), EvalError>,
)
    requires
        step_effect(st, env, s, env2, t, r),
    ensures
        line_effect(seq![st], env, s, env2, t, r),
{
    let l = seq![st];
    assert(l[0] == st);
    assert(l.drop_first() =~= Seq::<Step>::empty());
    if r is Ok {
        assert(step_effect(l[0], env, s, env2, t, Ok(())) && line_effect(l.drop_first(), env2, t, env2, t, r));
    }
}

/// A failure in element `i` of a body fails the whole body.
proof fn lemma_body_err(
    vq: Seq<Val>,
    i: int,
    env: Map<Seq<char>, Val>,
    s: Seq<Val>,
    env2: Map<Seq<char>, Val>,
    t: Seq<Val>,
    e: EvalError,
)
    requires
        0 <= i < vq.len(),
        line_effect(body_steps(vq.subrange(0, i + 1)), env, s, env2, t, Err(e)),
    ensures
        line_effect(body_steps(vq), env, s, env2, t, Err(e)),
{
    lemma_body_steps_split(vq, i + 1);
    lemma_line_err_extend(
        body_steps(vq.subrange(0, i + 1)),
        body_steps(vq.subrange(i + 1, vq.len() as int)),
        env,
        s,
        env2,
        t,
        e,
    );
}

/// The kinds of list combinator.
#[derive(Debug, Clone, Copy, PartialEq, Eq, Structural)]
pub enum Combinator {
    Collect,
    Each,
    Fold,
}

/// What a list combinator does with the body steps `body` over the
/// elements `xs`, from bindings `env` and stack `s`, having collected
/// `out` (for `map`): `r`, and the bindings `env2` and stack `t` after it.
///
/// Each element is pushed and the body runs on the live stack. `map`
/// then pops one value into its output, `foldl` keeps the new top as the
/// accumulator (on the stack, where the next element goes above it), and
/// `each` keeps what the body left. `map` and `foldl` fail with `Arity`
/// when the body leaves an empty stack; the first failure ends the run.
/// At the end `map` pushes the list of what it collected.
pub open spec fn iter_effect(
    k: Combinator,
    xs: Seq<Val>,
    body: Seq<Step>,
    env: Map<Seq<char>, Val>,
    s: Seq<Val>,
    out: Seq<Val>,
    env2: Map<Seq<char>, Val>,
    t: Seq<Val>,
    r: Result<(), EvalError>,
) -> bool
    decreases xs.len(),
{
    if xs.len() == 0 {
        r is Ok && env2 == env && t == (if k == Combinator::Collect { s.push(Val::List(out)) } else { s })
    } else if r is Err && line_effect(body, env, s.push(xs[0]), env2, t, r) {
        true
    } else {
        exists|em: Map<Seq<char>, Val>, m: Seq<Val>|
            #[trigger] line_effect(body, env, s.push(xs[0]), em, m, Ok(())) && if k != Combinator::Each
                && m.len() == 0 {
                r == Err::<(), EvalError>(EvalError::Arity)
            } else if k == Combinator::Collect {
                iter_effect(k, xs.drop_first(), body, em, m.drop_last(), out.push(m.last()), env2, t, r)
            } else {
                iter_effect(k, xs.drop_first(), body, em, m, out, env2, t, r)
            }
    }
}


/// Why `map` or `each` cannot start on a stack, if it cannot: they need a
/// quotation on top and a list below it.
pub open spec fn map_operand_error(s: Seq<Val>) -> Option<EvalError> {
    if s.len() == 0 {
        Some(EvalError::Arity)
    } else if !(s.last() is Quotation) {
        Some(EvalError::Type)
    } else if s.len() == 1 {
        Some(EvalError::Arity)
    } else if !(s[s.len() - 2] is List) {
        Some(EvalError::Type)
    } else {
        None
    }
}

/// Why `foldl` cannot start on a stack, if it cannot: it needs a quotation
/// on top, an accumulator below it and a list below that.
pub open spec fn fold_operand_error(s: Seq<Val>) -> Option<EvalError> {
    if s.len() == 0 {
        Some(EvalError::Arity)
    } else if !(s.last() is Quotation) {
        Some(EvalError::Type)
    } else if s.len() < 3 {
        Some(EvalError::Arity)
    } else if !(s[s.len() - 3] is List) {
        Some(EvalError::Type)
    } else {
        None
    }
}

/// The error a line fails with because of how it starts, when its first
/// token reads further tokens: an `if` whose blocks are malformed or whose
/// condition (the top of `s`) is missing or not a Boolean; a `push`,
/// `map`, `each` or `foldl` with no token after it; a `push` whose next
/// token is no literal; a `map`, `each` or `foldl` whose next token is
/// neither bound in `env` nor a literal.
pub open spec fn head_failure(ts: Seq<Seq<char>>, s: Seq<Val>, env: Map<Seq<char>, Val>) -> Option<EvalError> {
    if ts.len() == 0 {
        None
    } else if ts[0] == "if"@ {
        match if_spec(ts, 1) {
            Err(e) => Some(e),
            Ok(_) => if s.len() == 0 {
                Some(EvalError::Arity)
            } else if !(s.last() is Bool) {
                Some(EvalError::Type)
            } else {
                None
            },
        }
    } else if ts[0] == "push"@ {
        if ts.len() == 1 {
            Some(EvalError::Structure)
        } else {
            match parse_spec(ts[1]) {
                Err(e) => Some(e),
                Ok(_) => None,
            }
        }
    } else if ts[0] == "map"@ || ts[0] == "each"@ || ts[0] == "foldl"@ {
        if ts.len() == 1 {
            Some(EvalError::Structure)
        } else if env.contains_key(ts[1]) {
            None
        } else {
            match parse_spec(ts[1]) {
                Err(e) => Some(e),
                Ok(_) => None,
            }
        }
    } else {
        None
    }
}

/// Finds the `}` that closes the block starting at `i`.
fn find_block_end(toks: &Vec<Vec<char>>, i: usize) -> (r: Option<usize>)
    requires
        i >= 1,
    ensures
        match block_end(pieces_view(toks@), i as int, 1) {
            Some(e) => r == Some(e as usize) && i <= e < toks@.len(),
            None => r is None,
        },
{
    let ghost ts = pieces_view(toks@);
    proof {
        lemma_block_end_bounds(ts, i as int, 1);
    }
    let mut k: usize = i;
    let mut depth: usize = 1;
    while k < toks.len()
        invariant
            1 <= i <= k,
            k <= toks@.len() || k == i,
            depth >= 1,
            depth <= k - i + 1,
            ts == pieces_view(toks@),
            block_end(ts, i as int, 1) == block_end(ts, k as int, depth as nat),
        decreases toks.len() - k,
    {
        assert(ts[k as int] == toks@[k as int]@);
        if is_char_token(&toks[k], '}') {
            if depth == 1 {
                return Some(k);
            }
            depth -= 1;
        } else if is_char_token(&toks[k], '{') {
            depth += 1;
        }
        k += 1;
    }
    None
}

/// Splits `if { T } { F }` into its blocks (see `if_spec`).
fn if_blocks(toks: &Vec<Vec<char>>, p: usize) -> (r: Result<(usize, usize, usize, usize, usize), EvalError>)
    ensures
        match if_spec(pieces_view(toks@), p as int) {
            Ok((a, b, c, d, e)) => r == Ok::<(usize, usize, usize, usize, usize), EvalError>(
                (a as usize, b as usize, c as usize, d as usize, e as usize),
            ) && a <= b < toks@.len() && c <= d <= toks@.len() && p < e <= toks@.len(),
            Err(x) => r == Err::<(usize, usize, usize, usize, usize), EvalError>(x),
        },
        match r {
            Ok((a, b, c, d, e)) => a <= b < toks@.len() && c <= d <= toks@.len() && p < e
                <= toks@.len(),
            Err(_) => true,
        },
{
    let ghost ts = pieces_view(toks@);
    if p >= toks.len() || !is_char_token(&toks[p], '{') {
        return Err(EvalError::Structure);
    }
    assert(ts[p as int] == toks@[p as int]@);
    proof {
        lemma_block_end_bounds(ts, p + 1, 1);
    }
    let e1 = match find_block_end(toks, p + 1) {
        None => {
            return Err(EvalError::Structure);
        },
        Some(e) => e,
    };
    if e1 + 1 < toks.len() && is_char_token(&toks[e1 + 1], '{') {
        assert(ts[e1 + 1] == toks@[e1 + 1]@);
        proof {
            lemma_block_end_bounds(ts, e1 + 2, 1);
        }
        match find_block_end(toks, e1 + 2) {
            None => Err(EvalError::Structure),
            Some(e2) => Ok((p + 1, e1, e1 + 2, e2, e2 + 1)),
        }
    } else {
        proof {
            if e1 + 1 < toks@.len() {
                assert(ts[e1 + 1] == toks@[e1 + 1]@);
            }
        }
        Ok((p + 1, e1, e1 + 1, e1 + 1, e1 + 1))
    }
}

/// Joins the tokens `lo..hi` by single spaces.
fn join_range(toks: &Vec<Vec<char>>, lo: usize, hi: usize) -> (r: String)
    requires
        lo <= hi <= toks@.len(),
    ensures
        r@ == join_with(pieces_view(toks@).subrange(lo as int, hi as int), ' '),
{
    let ghost ts = pieces_view(toks@);
    let mut out: Vec<char> = Vec::new();
    let mut k: usize = lo;
    while k < hi
        invariant
            lo <= k <= hi <= toks@.len(),
            ts == pieces_view(toks@),
            out@ == join_with(ts.subrange(lo as int, k as int), ' '),
        decreases hi - k,
    {
        let ghost before = out@;
        if k > lo {
            out.push(' ');
        }
        let t = &toks[k];
        let mut j: usize = 0;
        let ghost mid = out@;
        while j < t.len()
            invariant
                j <= t@.len(),
                out@ == mid + t@.subrange(0, j as int),
            decreases t.len() - j,
        {
            out.push(t[j]);
            j += 1;
            assert(out@ =~= mid + t@.subrange(0, j as int));
        }
        proof {
            assert(t@.subrange(0, j as int) =~= t@);
            let s1 = ts.subrange(lo as int, k + 1);
            assert(s1.drop_last() =~= ts.subrange(lo as int, k as int));
            assert(s1.last() == t@);
            if k == lo {
                assert(out@ =~= t@);
            } else {
                assert(out@ =~= before + seq![' '] + t@);
            }
        }
        k += 1;
    }
    string_of(&out)
}

/// A deep copy of a symbol table.
fn copy_symbols(s: &Vec<(String, StackValue)>) -> (r: Vec<(String, StackValue)>)
    ensures
        table_map(r@) == table_map(s@),
{
    let mut r: Vec<(String, StackValue)> = Vec::new();
    let mut i: usize = 0;
    while i < s.len()
        invariant
            i <= s@.len(),
            r@.len() == i,
            forall|j: int| 0 <= j < i ==> (#[trigger] r@[j]).0@ == s@[j].0@ && r@[j].1@ == s@[j].1@,
        decreases s.len() - i,
    {
        r.push((s[i].0.clone(), s[i].1.copy()));
        i += 1;
    }
    proof {
        assert forall|n: Seq<char>| #[trigger] lookup_spec(r@, n) == lookup_spec(s@, n) by {
            lemma_lookup_same(r@, s@, n);
        }
        assert(table_map(r@) =~= table_map(s@));
    }
    r
}

/// Tables with the same names and values, entry by entry, bind alike.
proof fn lemma_lookup_same(a: Seq<(String, StackValue)>, b: Seq<(String, StackValue)>, n: Seq<char>)
    requires
        a.len() == b.len(),
        forall|j: int| 0 <= j < a.len() ==> (#[trigger] a[j]).0@ == b[j].0@ && a[j].1@ == b[j].1@,
    ensures
        lookup_spec(a, n) == lookup_spec(b, n),
    decreases a.len(),
{
    if a.len() > 0 {
        let a0 = a.drop_last();
        let b0 = b.drop_last();
        assert forall|j: int| 0 <= j < a0.len() implies (#[trigger] a0[j]).0@ == b0[j].0@ && a0[j].1@
            == b0[j].1@ by {
            assert(a0[j] == a[j]);
            assert(b0[j] == b[j]);
        }
        lemma_lookup_same(a0, b0, n);
        assert(a.last() == a[a.len() - 1]);
    }
}

impl<H: Host> Stack<H> {
    /// Evaluates a line of text. The line applies as a whole: when a token
    /// fails, the stack and the bindings are left as they were before the
    /// line, and the error is returned. Lines printed before the failure
    /// stay printed.
    pub fn parse(&mut self, input: &str) -> (r: Result<(), EvalError>)
        ensures
            r is Err ==> final(self).data == old(self).data && final(self).symbols == old(
                self,
            ).symbols,
            all_steps(tokens_of(input@)) ==> line_effect(
                steps_in(tokens_of(input@)),
                old(self).env(),
                old(self).stack(),
                final(self).env(),
                final(self).stack(),
                r,
            ),
            match head_failure(tokens_of(input@), old(self).stack(), old(self).env()) {
                Some(e) => r == Err::<(), EvalError>(e),
                None => true,
            },
    {
        let mut saved_data = copy_all(&self.data);
        let mut saved_symbols = copy_symbols(&self.symbols);
        std::mem::swap(&mut self.data, &mut saved_data);
        std::mem::swap(&mut self.symbols, &mut saved_symbols);
        let res = self.run_str(input, MAX_DEPTH);
        match res {
            Ok(()) => res,
            Err(e) => {
                let ghost failed = self.stack();
                let ghost failed_env = self.env();
                self.data = saved_data;
                self.symbols = saved_symbols;
                proof {
                    if all_steps(tokens_of(input@)) {
                        lemma_line_err_any(
                            steps_in(tokens_of(input@)),
                            old(self).env(),
                            old(self).stack(),
                            failed_env,
                            failed,
                            self.env(),
                            self.stack(),
                            e,
                        );
                    }
                }
                Err(e)
            },
        }
    }

    /// Renders the stack, bottom first, as a list.
    pub fn show(&self) -> (r: String)
        ensures
            all_float_free(self.stack()) ==> r@ == render_spec(Val::List(self.stack())),
    {
        let all = StackValue::Vec(copy_all(&self.data));
        assert(all@ == Val::List(self.stack()));
        render(&self.host, &all)
    }

    /// Runs the tokens of a text.
    fn run_str(&mut self, text: &str, fuel: u64) -> (r: Result<(), EvalError>)
        ensures
            all_steps(tokens_of(text@)) ==> line_effect(
                steps_in(tokens_of(text@)),
                old(self).env(),
                old(self).stack(),
                final(self).env(),
                final(self).stack(),
                r,
            ),
            match head_failure(tokens_of(text@), old(self).stack(), old(self).env()) {
                Some(e) => r == Err::<(), EvalError>(e),
                None => true,
            },
        decreases fuel, 4nat,
    {
        let words = tokenize(text);
        let mut toks: Vec<Vec<char>> = Vec::new();
        let mut i: usize = 0;
        while i < words.len()
            invariant
                i <= words@.len(),
                toks@.len() == i,
                forall|j: int| 0 <= j < i ==> #[trigger] toks@[j]@ == words@[j]@,
            decreases words.len() - i,
        {
            toks.push(chars_of(words[i].as_str()));
            i += 1;
        }
        assert(pieces_view(toks@) =~= crate::tokenizer::strings_view(words@));
        self.run_tokens(&toks, fuel)
    }

    /// Runs tokens in order; `if`, `push`, `map`, `each` and `foldl` take
    /// the tokens that follow them too.
    fn run_tokens(&mut self, toks: &Vec<Vec<char>>, fuel: u64) -> (r: Result<(), EvalError>)
        ensures
            all_steps(pieces_view(toks@)) ==> line_effect(
                steps_in(pieces_view(toks@)),
                old(self).env(),
                old(self).stack(),
                final(self).env(),
                final(self).stack(),
                r,
            ),
            match head_failure(pieces_view(toks@), old(self).stack(), old(self).env()) {
                Some(e) => r == Err::<(), EvalError>(e),
                None => true,
            },
        decreases fuel, 3nat,
    {
        let ghost s0 = self.stack();
        let ghost b0 = self.env();
        let ghost ts = pieces_view(toks@);
        let ghost ws = steps_in(ts);
        let ghost simple = all_steps(ts);
        let mut i: usize = 0;
        assert(ws.subrange(0, 0) =~= Seq::<Step>::empty());
        while i < toks.len()
            invariant
                i <= toks@.len(),
                s0 == old(self).stack(),
                ts == pieces_view(toks@),
                ws == steps_in(ts),
                b0 == old(self).env(),
                simple == all_steps(ts),
                simple ==> line_effect(ws.subrange(0, i as int), b0, s0, self.env(), self.stack(), Ok(())),
                i == 0 ==> self.stack() == s0 && self.env() == b0,
                i > 0 ==> head_failure(ts, s0, b0) is None,
            decreases toks.len() - i,
        {
            assert(ts[i as int] == toks@[i as int]@);
            assert(i + 1 < toks@.len() ==> ts[i + 1] == toks@[i + 1]@);
            let t = &toks[i];
            assert(simple ==> step_of(t@) is Some);
            proof {
                reveal_strlit(":=");
                reveal_strlit("if");
                reveal_strlit("push");
                reveal_strlit("map");
                reveal_strlit("each");
                reveal_strlit("foldl");
                assert(":="@[0] != "if"@[0]);
                assert(":="@ != "if"@ && ":="@ != "push"@ && ":="@ != "map"@ && ":="@ != "each"@
                    && ":="@ != "foldl"@);
            }
            if is_kw(t, "if") {
                let (a, b, c, d, e) = if_blocks(toks, i + 1)?;
                let cond = match self.pop() {
                    Some(StackValue::Bool(x)) => x,
                    Some(_) => {
                        return Err(EvalError::Type);
                    },
                    None => {
                        return Err(EvalError::Arity);
                    },
                };
                let block = if cond {
                    join_range(toks, a, b)
                } else {
                    join_range(toks, c, d)
                };
                if fuel == 0 {
                    return Err(EvalError::TooDeep);
                }
                self.run_str(block.as_str(), fuel - 1)?;
                i = e;
            } else if is_kw(t, "push") {
                if i + 1 >= toks.len() {
                    return Err(EvalError::Structure);
                }
                let v = parse_chars(&self.host, &toks[i + 1])?;
                self.push(v);
                i += 2;
            } else if is_kw(t, "map") || is_kw(t, "each") || is_kw(t, "foldl") {
                if i + 1 >= toks.len() {
                    return Err(EvalError::Structure);
                }
                self.push_word(&toks[i + 1])?;
                if is_kw(t, "map") {
                    self.map_with(fuel)?;
                } else if is_kw(t, "each") {
                    self.each_with(fuel)?;
                } else {
                    self.foldl_with(fuel)?;
                }
                i += 2;
            } else {
                let ghost before = self.stack();
                let ghost before_env = self.env();
                let step = self.run_word(t, fuel);
                proof {
                    if simple {
                        assert(step_of(t@) is Some);
                        assert(ws[i as int] == step_of(t@)->Some_0);
                        lemma_line_step(ws.subrange(0, i as int), ws[i as int], b0, s0, before_env, before, self.env(), self.stack(), step);
                        assert(ws.subrange(0, i as int).push(ws[i as int]) =~= ws.subrange(0, i + 1));
                        if let Err(e) = step {
                            lemma_line_err_extend(ws.subrange(0, i + 1), ws.subrange(i + 1, ws.len() as int), b0, s0, self.env(), self.stack(), e);
                            assert(ws.subrange(0, i + 1) + ws.subrange(i + 1, ws.len() as int) =~= ws);
                        }
                    }
                }
                step?;
                i += 1;
            }
        }
        assert(ws.subrange(0, i as int) =~= ws);
        assert(toks@.len() == 0 ==> ts.len() == 0);
        Ok(())
    }

    /// Pushes the value a word names: its binding, or else the literal it
    /// spells.
    fn push_word(&mut self, t: &Vec<char>) -> (r: Result<(), EvalError>)
        ensures
            literal_effect(old(self).env(), t@, old(self).stack(), final(self).stack(), r),
            final(self).symbols == old(self).symbols,
    {
        let name = string_of(t);
        match self.lookup(&name) {
            Some(v) => {
                self.push(v);
                Ok(())
            },
            None => {
                let parsed_value = parse_chars(&self.host, t);
                match parsed_value {
                    Ok(v) => {
                        let ghost s0 = self.stack();
                        self.push(v);
                        assert(self.stack().drop_last() =~= s0);
                        Ok(())
                    },
                    Err(e) => Err(e),
                }
            },
        }
    }


    /// Runs one token that takes no tokens after it.
    fn run_word(&mut self, t: &Vec<char>, fuel: u64) -> (r: Result<(), EvalError>)
        requires
            !(t@ == "if"@ || t@ == "push"@ || t@ == "map"@ || t@ == "each"@ || t@ == "foldl"@),
        ensures
            match step_of(t@) {
                Some(st) => step_effect(st, old(self).env(), old(self).stack(), final(self).env(), final(self).stack(), r),
                None => true,
            },
        decreases fuel, 2nat,
    {
        if is_kw(t, "dup") {
            self.dup()
        } else if is_kw(t, "swap") {
            self.swap()
        } else if is_kw(t, "pop") {
            self.drop_top()
        } else if is_kw(t, ":=") {
            self.assignment()
        } else if is_kw(t, "parseInteger") {
            self.parse_integer()
        } else if is_kw(t, "parseFloat") {
            self.parse_float()
        } else if is_kw(t, "words") {
            self.words()
        } else if is_kw(t, "print") {
            self.print()
        } else if is_kw(t, "read") {
            self.read()
        } else if is_kw(t, "exec") {
            self.exec_with(fuel)
        } else if is_kw(t, "+") {
            self.binary_op(BinOp::Add)
        } else if is_kw(t, "-") {
            self.binary_op(BinOp::Sub)
        } else if is_kw(t, "*") {
            self.binary_op(BinOp::Mul)
        } else if is_kw(t, "/") {
            self.binary_op(BinOp::FDiv)
        } else if is_kw(t, "div") {
            self.binary_op(BinOp::Div)
        } else if is_kw(t, "<") {
            self.binary_op(BinOp::Lt)
        } else if is_kw(t, ">") {
            self.binary_op(BinOp::Gt)
        } else if is_kw(t, "&&") {
            self.binary_op(BinOp::And)
        } else if is_kw(t, "||") {
            self.binary_op(BinOp::Or)
        } else if is_kw(t, "==") {
            self.equal()
        } else if is_kw(t, "not") {
            self.negate_top()
        } else if is_kw(t, "head") {
            self.head_top()
        } else if is_kw(t, "tail") {
            self.tail_top()
        } else if is_kw(t, "empty") {
            self.empty_top()
        } else if is_kw(t, "length") {
            self.length_top()
        } else if is_kw(t, "cons") {
            self.cons()
        } else if is_kw(t, "append") {
            self.append()
        } else {
            let parts = split_chars(t, ' ');
            assert(parts@.len() == 3 ==> pieces_view(parts@)[1] == parts@[1]@);
            if parts.len() == 3 && is_kw(&parts[1], ":=") {
                let v = parse_chars(&self.host, &parts[2])?;
                self.bind(string_of(&parts[0]), v);
                Ok(())
            } else {
                self.push_word(t)
            }
        }
    }

    /// `print`: pops the top and prints it.
    pub fn print(&mut self) -> (r: Result<(), EvalError>)
        ensures
            old(self).stack().len() == 0 ==> r == Err::<(), EvalError>(EvalError::Arity),
            old(self).stack().len() > 0 ==> r is Ok && final(self).stack() == old(
                self,
            ).stack().drop_last(),
            final(self).symbols == old(self).symbols,
    {
        match self.pop() {
            None => Err(EvalError::Arity),
            Some(v) => {
                let text = render(&self.host, &v);
                self.host.print_line(text.as_str());
                Ok(())
            },
        }
    }

    /// `read`: reads a line and pushes it as a text.
    pub fn read(&mut self) -> (r: Result<(), EvalError>)
        ensures
            match r {
                Ok(_) => final(self).stack().len() == old(self).stack().len() + 1
                    && final(self).stack().drop_last() == old(self).stack()
                    && final(self).stack().last() is Text,
                Err(e) => e == EvalError::Io && final(self).stack() == old(self).stack(),
            },
            final(self).symbols == old(self).symbols,
    {
        match self.host.read_line() {
            Some(line) => {
                self.push(StackValue::String(line));
                Ok(())
            },
            None => Err(EvalError::Io),
        }
    }

    /// Pops the quotation on top.
    fn pop_quotation(&mut self) -> (r: Result<Vec<StackValue>, EvalError>)
        ensures
            ({
                let s = old(self).stack();
                if s.len() == 0 {
                    r == Err::<Vec<StackValue>, EvalError>(EvalError::Arity)
                } else {
                    match s.last() {
                        Val::Quotation(q) => r is Ok && views(r->Ok_0@) == q && final(self).stack()
                            == s.drop_last(),
                        _ => r == Err::<Vec<StackValue>, EvalError>(EvalError::Type),
                    }
                }
            }),
            final(self).symbols == old(self).symbols,
    {
        match self.pop() {
            None => Err(EvalError::Arity),
            Some(StackValue::Quotation(q)) => Ok(q),
            Some(_) => Err(EvalError::Type),
        }
    }

    /// Pops the list on top.
    fn pop_list(&mut self) -> (r: Result<Vec<StackValue>, EvalError>)
        ensures
            ({
                let s = old(self).stack();
                if s.len() == 0 {
                    r == Err::<Vec<StackValue>, EvalError>(EvalError::Arity)
                } else {
                    match s.last() {
                        Val::List(l) => r is Ok && views(r->Ok_0@) == l && final(self).stack()
                            == s.drop_last(),
                        _ => r == Err::<Vec<StackValue>, EvalError>(EvalError::Type),
                    }
                }
            }),
            final(self).symbols == old(self).symbols,
    {
        match self.pop() {
            None => Err(EvalError::Arity),
            Some(StackValue::Vec(l)) => Ok(l),
            Some(_) => Err(EvalError::Type),
        }
    }

    /// Runs the body of a quotation: symbols are evaluated as tokens, other
    /// values are pushed; a quotation inside it is a type error.
    fn run_body(&mut self, body: &Vec<StackValue>, fuel: u64) -> (r: Result<(), EvalError>)
        ensures
            fuel > 0 && simple_body(views(body@)) ==> line_effect(
                body_steps(views(body@)),
                old(self).env(),
                old(self).stack(),
                final(self).env(),
                final(self).stack(),
                r,
            ),
        decreases fuel, 0nat,
    {
        let ghost s0 = self.stack();
        let ghost env0 = self.env();
        let ghost vq = views(body@);
        let ghost ok = fuel > 0 && simple_body(vq);
        proof {
            lemma_views(body@);
        }
        let mut i: usize = 0;
        assert(body_steps(vq.subrange(0, 0)) =~= Seq::<Step>::empty());
        while i < body.len()
            invariant
                i <= body@.len() == vq.len(),
                vq == views(body@),
                ok == (fuel > 0 && simple_body(vq)),
                s0 == old(self).stack(),
                env0 == old(self).env(),
                ok ==> line_effect(body_steps(vq.subrange(0, i as int)), env0, s0, self.env(), self.stack(), Ok(())),
            decreases body.len() - i,
        {
            let ghost before = self.stack();
            let ghost before_env = self.env();
            let ghost pre = vq.subrange(0, i as int);
            let ghost pre1 = vq.subrange(0, i + 1);
            assert(pre1.drop_last() =~= pre);
            assert(vq[i as int] == body@[i as int]@);
            assert(body_steps(pre1) == body_steps(pre) + elem_steps(vq[i as int]));
            match &body[i] {
                StackValue::Symbol(name) => {
                    assert(vq[i as int] == Val::Symbol(name@));
                    if fuel == 0 {
                        return Err(EvalError::TooDeep);
                    }
                    let res = self.run_str(name.as_str(), fuel - 1);
                    proof {
                        if ok {
                            assert(vq[i as int] is Symbol);
                            assert(all_steps(tokens_of(name@)));
                            lemma_line_concat(body_steps(pre), elem_steps(vq[i as int]), env0, s0, before_env, before, self.env(), self.stack(), res);
                            if let Err(e) = res {
                                lemma_body_err(vq, i as int, env0, s0, self.env(), self.stack(), e);
                            }
                        }
                    }
                    res?;
                },
                StackValue::Quotation(q) => {
                    proof {
                        assert(vq[i as int] == Val::Quotation(views(q@)));
                        if ok {
                            lemma_line_single(Step::Reject, before_env, before, before_env, before, Err(EvalError::Type));
                            lemma_line_concat(body_steps(pre), elem_steps(vq[i as int]), env0, s0, before_env, before, before_env, before, Err(EvalError::Type));
                            lemma_body_err(vq, i as int, env0, s0, before_env, before, EvalError::Type);
                        }
                    }
                    return Err(EvalError::Type);
                },
                v => {
                    let c = v.copy();
                    self.push(c);
                    proof {
                        assert(!(vq[i as int] is Symbol) && !(vq[i as int] is Quotation));
                        assert(elem_steps(vq[i as int]) == seq![Step::Value(c@)]);
                        if ok {
                            lemma_line_single(Step::Value(c@), before_env, before, self.env(), self.stack(), Ok(()));
                            lemma_line_concat(body_steps(pre), elem_steps(vq[i as int]), env0, s0, before_env, before, self.env(), self.stack(), Ok(()));
                        }
                    }
                },
            }
            i += 1;
        }
        assert(vq.subrange(0, i as int) =~= vq);
        Ok(())
    }

    /// `exec` with a nesting budget.
    fn exec_with(&mut self, fuel: u64) -> (r: Result<(), EvalError>)
        ensures
            ({
                let s = old(self).stack();
                &&& s.len() == 0 ==> r == Err::<(), EvalError>(EvalError::Arity)
                &&& s.len() > 0 && !(s.last() is Quotation) ==> r == Err::<(), EvalError>(
                    EvalError::Type,
                )
                &&& fuel > 0 && s.len() > 0 && s.last() is Quotation && simple_body(
                    s.last()->Quotation_0,
                ) ==> line_effect(
                    body_steps(s.last()->Quotation_0),
                    old(self).env(),
                    s.drop_last(),
                    final(self).env(),
                    final(self).stack(),
                    r,
                )
            }),
        decreases fuel, 1nat,
    {
        let q = self.pop_quotation()?;
        self.run_body(&q, fuel)
    }

    /// `exec`: pops a quotation and runs it against the stack.
    pub fn exec(&mut self) -> (r: Result<(), EvalError>)
        ensures
            ({
                let s = old(self).stack();
                &&& s.len() == 0 ==> r == Err::<(), EvalError>(EvalError::Arity)
                &&& s.len() > 0 && !(s.last() is Quotation) ==> r == Err::<(), EvalError>(
                    EvalError::Type,
                )
                &&& s.len() > 0 && s.last() is Quotation && simple_body(s.last()->Quotation_0)
                    ==> line_effect(
                    body_steps(s.last()->Quotation_0),
                    old(self).env(),
                    s.drop_last(),
                    final(self).env(),
                    final(self).stack(),
                    r,
                )
            }),
    {
        self.exec_with(MAX_DEPTH)
    }

    /// `map` with a nesting budget.
    fn map_with(&mut self, fuel: u64) -> (r: Result<(), EvalError>)
        ensures
            ({
                let s = old(self).stack();
                match map_operand_error(s) {
                    Some(e) => r == Err::<(), EvalError>(e),
                    None => fuel > 0 && simple_body(s.last()->Quotation_0) ==> iter_effect(
                        Combinator::Collect,
                        s[s.len() - 2]->List_0,
                        body_steps(s.last()->Quotation_0),
                        old(self).env(),
                        s.drop_last().drop_last(),
                        Seq::empty(),
                        final(self).env(),
                        final(self).stack(),
                        r,
                    ),
                }
            }),
        decreases fuel, 1nat,
    {
        let ghost s = self.stack();
        let ghost env0 = self.env();
        let q = self.pop_quotation()?;
        let l = self.pop_list()?;
        proof {
            lemma_views(l@);
        }
        let ghost base = self.stack();
        let ghost xs = views(l@);
        let ghost body = body_steps(views(q@));
        let ghost ok = fuel > 0 && simple_body(views(q@));
        let mut out: Vec<StackValue> = Vec::new();
        let mut i: usize = 0;
        assert(xs.subrange(0, xs.len() as int) =~= xs);
        assert(views(out@) =~= Seq::<Val>::empty());
        while i < l.len()
            invariant
                i <= l@.len() == xs.len(),
                s == old(self).stack(),
                env0 == old(self).env(),
                map_operand_error(s) is None,
                xs == views(l@),
                s[s.len() - 2] == Val::List(xs),
                views(q@) == s.last()->Quotation_0,
                base == s.drop_last().drop_last(),
                body == body_steps(views(q@)),
                ok == (fuel > 0 && simple_body(views(q@))),
                ok ==> forall|e2: Map<Seq<char>, Val>, t: Seq<Val>, rr: Result<(), EvalError>|
                    #[trigger] iter_effect(
                        Combinator::Collect,
                        xs.subrange(i as int, xs.len() as int),
                        body,
                        self.env(),
                        self.stack(),
                        views(out@),
                        e2,
                        t,
                        rr,
                    ) ==> iter_effect(Combinator::Collect, xs, body, env0, base, Seq::empty(), e2, t, rr),
            decreases l.len() - i,
        {
            let ghost cur_env = self.env();
            let ghost cur = self.stack();
            let ghost cur_out = views(out@);
            let ghost sub = xs.subrange(i as int, xs.len() as int);
            assert(sub[0] == xs[i as int]);
            assert(sub.drop_first() =~= xs.subrange(i + 1, xs.len() as int));
            let v = l[i].copy();
            proof {
                assert(views(l@)[i as int] == l@[i as int]@);
            }
            self.push(v);
            assert(self.stack() == cur.push(sub[0]));
            assert(self.env() == cur_env);
            let res = self.run_body(&q, fuel);
            assert(ok ==> line_effect(body, cur_env, cur.push(sub[0]), self.env(), self.stack(), res));
            if let Err(e) = res {
                proof {
                    if ok {
                        assert(iter_effect(Combinator::Collect, sub, body, cur_env, cur, cur_out, self.env(), self.stack(), res));
                    }
                }
                return Err(e);
            }
            proof {
                let u = res->Ok_0;
                assert(u == ());
                assert(res == Ok::<(), EvalError>(()));
            }
            let ghost mid_env = self.env();
            let ghost mid = self.stack();
            match self.pop() {
                Some(x) => {
                    proof {
                        lemma_views(out@.push(x));
                        assert(views(out@.push(x)) =~= cur_out.push(x@));
                    }
                    out.push(x);
                },
                None => {
                    proof {
                        if ok {
                            assert(line_effect(body, cur_env, cur.push(sub[0]), mid_env, mid, Ok(())));
                            assert(iter_effect(Combinator::Collect, sub, body, cur_env, cur, cur_out, self.env(), self.stack(), Err(EvalError::Arity)));
                        }
                    }
                    return Err(EvalError::Arity);
                },
            }
            proof {
                if ok {
                    assert forall|e2: Map<Seq<char>, Val>, t: Seq<Val>, rr: Result<(), EvalError>|
                        #[trigger] iter_effect(
                            Combinator::Collect,
                            xs.subrange(i + 1, xs.len() as int),
                            body,
                            self.env(),
                            self.stack(),
                            views(out@),
                            e2,
                            t,
                            rr,
                        ) implies iter_effect(Combinator::Collect, xs, body, env0, base, Seq::empty(), e2, t, rr) by {
                        assert(line_effect(body, cur_env, cur.push(sub[0]), mid_env, mid, Ok(())));
                        assert(iter_effect(Combinator::Collect, sub, body, cur_env, cur, cur_out, e2, t, rr));
                    }
                }
            }
            i += 1;
        }
        proof {
            assert(xs.subrange(i as int, xs.len() as int) =~= Seq::<Val>::empty());
        }
        let ghost end_env = self.env();
        let ghost end = self.stack();
        let ghost end_out = views(out@);
        self.push(StackValue::Vec(out));
        proof {
            if ok {
                assert(iter_effect(Combinator::Collect, xs.subrange(i as int, xs.len() as int), body, end_env, end, end_out, self.env(), self.stack(), Ok(())));
            }
        }
        Ok(())
    }

    /// `each` with a nesting budget.
    fn each_with(&mut self, fuel: u64) -> (r: Result<(), EvalError>)
        ensures
            ({
                let s = old(self).stack();
                match map_operand_error(s) {
                    Some(e) => r == Err::<(), EvalError>(e),
                    None => fuel > 0 && simple_body(s.last()->Quotation_0) ==> iter_effect(
                        Combinator::Each,
                        s[s.len() - 2]->List_0,
                        body_steps(s.last()->Quotation_0),
                        old(self).env(),
                        s.drop_last().drop_last(),
                        Seq::empty(),
                        final(self).env(),
                        final(self).stack(),
                        r,
                    ),
                }
            }),
        decreases fuel, 1nat,
    {
        let ghost s = self.stack();
        let ghost env0 = self.env();
        let q = self.pop_quotation()?;
        let l = self.pop_list()?;
        proof {
            lemma_views(l@);
        }
        let ghost base = self.stack();
        let ghost xs = views(l@);
        let ghost body = body_steps(views(q@));
        let ghost ok = fuel > 0 && simple_body(views(q@));
        let ghost none = Seq::<Val>::empty();
        let mut i: usize = 0;
        assert(xs.subrange(0, xs.len() as int) =~= xs);
        while i < l.len()
            invariant
                i <= l@.len() == xs.len(),
                s == old(self).stack(),
                env0 == old(self).env(),
                map_operand_error(s) is None,
                xs == views(l@),
                s[s.len() - 2] == Val::List(xs),
                views(q@) == s.last()->Quotation_0,
                base == s.drop_last().drop_last(),
                body == body_steps(views(q@)),
                none == Seq::<Val>::empty(),
                ok == (fuel > 0 && simple_body(views(q@))),
                ok ==> forall|e2: Map<Seq<char>, Val>, t: Seq<Val>, rr: Result<(), EvalError>|
                    #[trigger] iter_effect(
                        Combinator::Each,
                        xs.subrange(i as int, xs.len() as int),
                        body,
                        self.env(),
                        self.stack(),
                        none,
                        e2,
                        t,
                        rr,
                    ) ==> iter_effect(Combinator::Each, xs, body, env0, base, none, e2, t, rr),
            decreases l.len() - i,
        {
            let ghost cur_env = self.env();
            let ghost cur = self.stack();
            let ghost sub = xs.subrange(i as int, xs.len() as int);
            assert(sub[0] == xs[i as int]);
            assert(sub.drop_first() =~= xs.subrange(i + 1, xs.len() as int));
            let v = l[i].copy();
            proof {
                assert(views(l@)[i as int] == l@[i as int]@);
            }
            self.push(v);
            assert(self.stack() == cur.push(sub[0]));
            assert(self.env() == cur_env);
            let res = self.run_body(&q, fuel);
            assert(ok ==> line_effect(body, cur_env, cur.push(sub[0]), self.env(), self.stack(), res));
            if let Err(e) = res {
                proof {
                    if ok {
                        assert(iter_effect(Combinator::Each, sub, body, cur_env, cur, none, self.env(), self.stack(), res));
                    }
                }
                return Err(e);
            }
            proof {
                let u = res->Ok_0;
                assert(u == ());
                assert(res == Ok::<(), EvalError>(()));
            }
            proof {
                if ok {
                    assert forall|e2: Map<Seq<char>, Val>, t: Seq<Val>, rr: Result<(), EvalError>|
                        #[trigger] iter_effect(
                            Combinator::Each,
                            xs.subrange(i + 1, xs.len() as int),
                            body,
                            self.env(),
                            self.stack(),
                            none,
                            e2,
                            t,
                            rr,
                        ) implies iter_effect(Combinator::Each, xs, body, env0, base, none, e2, t, rr) by {
                        assert(line_effect(body, cur_env, cur.push(sub[0]), self.env(), self.stack(), Ok(())));
                        assert(iter_effect(Combinator::Each, sub, body, cur_env, cur, none, e2, t, rr));
                    }
                }
            }
            i += 1;
        }
        proof {
            assert(xs.subrange(i as int, xs.len() as int) =~= Seq::<Val>::empty());
            if ok {
                assert(iter_effect(Combinator::Each, xs.subrange(i as int, xs.len() as int), body, self.env(), self.stack(), none, self.env(), self.stack(), Ok(())));
            }
        }
        Ok(())
    }

    /// `foldl` with a nesting budget.
    fn foldl_with(&mut self, fuel: u64) -> (r: Result<(), EvalError>)
        ensures
            ({
                let s = old(self).stack();
                match fold_operand_error(s) {
                    Some(e) => r == Err::<(), EvalError>(e),
                    None => fuel > 0 && simple_body(s.last()->Quotation_0) ==> iter_effect(
                        Combinator::Fold,
                        s[s.len() - 3]->List_0,
                        body_steps(s.last()->Quotation_0),
                        old(self).env(),
                        s.subrange(0, s.len() - 3).push(s[s.len() - 2]),
                        Seq::empty(),
                        final(self).env(),
                        final(self).stack(),
                        r,
                    ),
                }
            }),
        decreases fuel, 1nat,
    {
        let ghost s = self.stack();
        let ghost env0 = self.env();
        let q = self.pop_quotation()?;
        let mut acc = match self.pop() {
            Some(v) => v,
            None => {
                return Err(EvalError::Arity);
            },
        };
        let l = self.pop_list()?;
        proof {
            lemma_views(l@);
        }
        let ghost start = self.stack().push(acc@);
        assert(start =~= s.subrange(0, s.len() - 3).push(s[s.len() - 2]));
        let ghost xs = views(l@);
        let ghost body = body_steps(views(q@));
        let ghost ok = fuel > 0 && simple_body(views(q@));
        let ghost none = Seq::<Val>::empty();
        let mut i: usize = 0;
        assert(xs.subrange(0, xs.len() as int) =~= xs);
        while i < l.len()
            invariant
                i <= l@.len() == xs.len(),
                s == old(self).stack(),
                env0 == old(self).env(),
                fold_operand_error(s) is None,
                xs == views(l@),
                s[s.len() - 3] == Val::List(xs),
                views(q@) == s.last()->Quotation_0,
                start == s.subrange(0, s.len() - 3).push(s[s.len() - 2]),
                body == body_steps(views(q@)),
                none == Seq::<Val>::empty(),
                ok == (fuel > 0 && simple_body(views(q@))),
                ok ==> forall|e2: Map<Seq<char>, Val>, t: Seq<Val>, rr: Result<(), EvalError>|
                    #[trigger] iter_effect(
                        Combinator::Fold,
                        xs.subrange(i as int, xs.len() as int),
                        body,
                        self.env(),
                        self.stack().push(acc@),
                        none,
                        e2,
                        t,
                        rr,
                    ) ==> iter_effect(Combinator::Fold, xs, body, env0, start, none, e2, t, rr),
            decreases l.len() - i,
        {
            let ghost cur_env = self.env();
            let ghost cur = self.stack().push(acc@);
            let ghost sub = xs.subrange(i as int, xs.len() as int);
            assert(sub[0] == xs[i as int]);
            assert(sub.drop_first() =~= xs.subrange(i + 1, xs.len() as int));
            self.push(acc);
            let v = l[i].copy();
            proof {
                assert(views(l@)[i as int] == l@[i as int]@);
            }
            self.push(v);
            assert(self.stack() == cur.push(sub[0]));
            assert(self.env() == cur_env);
            let res = self.run_body(&q, fuel);
            assert(ok ==> line_effect(body, cur_env, cur.push(sub[0]), self.env(), self.stack(), res));
            if let Err(e) = res {
                proof {
                    if ok {
                        assert(iter_effect(Combinator::Fold, sub, body, cur_env, cur, none, self.env(), self.stack(), res));
                    }
                }
                return Err(e);
            }
            proof {
                let u = res->Ok_0;
                assert(u == ());
                assert(res == Ok::<(), EvalError>(()));
            }
            let ghost mid_env = self.env();
            let ghost mid = self.stack();
            acc = match self.pop() {
                Some(x) => x,
                None => {
                    proof {
                        if ok {
                            assert(line_effect(body, cur_env, cur.push(sub[0]), mid_env, mid, Ok(())));
                            assert(iter_effect(Combinator::Fold, sub, body, cur_env, cur, none, self.env(), self.stack(), Err(EvalError::Arity)));
                        }
                    }
                    return Err(EvalError::Arity);
                },
            };
            assert(self.stack().push(acc@) =~= mid);
            proof {
                if ok {
                    assert forall|e2: Map<Seq<char>, Val>, t: Seq<Val>, rr: Result<(), EvalError>|
                        #[trigger] iter_effect(
                            Combinator::Fold,
                            xs.subrange(i + 1, xs.len() as int),
                            body,
                            self.env(),
                            self.stack().push(acc@),
                            none,
                            e2,
                            t,
                            rr,
                        ) implies iter_effect(Combinator::Fold, xs, body, env0, start, none, e2, t, rr) by {
                        assert(line_effect(body, cur_env, cur.push(sub[0]), mid_env, mid, Ok(())));
                        assert(iter_effect(Combinator::Fold, sub, body, cur_env, cur, none, e2, t, rr));
                    }
                }
            }
            i += 1;
        }
        proof {
            assert(xs.subrange(i as int, xs.len() as int) =~= Seq::<Val>::empty());
        }
        let ghost end_env = self.env();
        let ghost end = self.stack().push(acc@);
        self.push(acc);
        proof {
            if ok {
                assert(iter_effect(Combinator::Fold, xs.subrange(i as int, xs.len() as int), body, end_env, end, none, self.env(), self.stack(), Ok(())));
            }
        }
        Ok(())
    }

    /// `map`: pops a quotation and a list below it, runs the quotation on
    /// each element in turn against the live stack, and pushes the list of
    /// the values each run leaves on top.
    pub fn process_map(&mut self) -> (r: Result<(), EvalError>)
        ensures
            ({
                let s = old(self).stack();
                match map_operand_error(s) {
                    Some(e) => r == Err::<(), EvalError>(e),
                    None => simple_body(s.last()->Quotation_0) ==> iter_effect(
                        Combinator::Collect,
                        s[s.len() - 2]->List_0,
                        body_steps(s.last()->Quotation_0),
                        old(self).env(),
                        s.drop_last().drop_last(),
                        Seq::empty(),
                        final(self).env(),
                        final(self).stack(),
                        r,
                    ),
                }
            }),
    {
        self.map_with(MAX_DEPTH)
    }

    /// `each`: pops a quotation and a list below it and runs the quotation
    /// on each element in turn against the live stack.
    pub fn process_each(&mut self) -> (r: Result<(), EvalError>)
        ensures
            ({
                let s = old(self).stack();
                match map_operand_error(s) {
                    Some(e) => r == Err::<(), EvalError>(e),
                    None => simple_body(s.last()->Quotation_0) ==> iter_effect(
                        Combinator::Each,
                        s[s.len() - 2]->List_0,
                        body_steps(s.last()->Quotation_0),
                        old(self).env(),
                        s.drop_last().drop_last(),
                        Seq::empty(),
                        final(self).env(),
                        final(self).stack(),
                        r,
                    ),
                }
            }),
    {
        self.each_with(MAX_DEPTH)
    }

    /// `foldl`: pops a quotation, an initial accumulator and a list below
    /// them; for each element pushes the accumulator and the element, runs
    /// the quotation, and takes the new top as the accumulator, which is
    /// pushed at the end.
    pub fn process_foldl(&mut self) -> (r: Result<(), EvalError>)
        ensures
            ({
                let s = old(self).stack();
                match fold_operand_error(s) {
                    Some(e) => r == Err::<(), EvalError>(e),
                    None => simple_body(s.last()->Quotation_0) ==> iter_effect(
                        Combinator::Fold,
                        s[s.len() - 3]->List_0,
                        body_steps(s.last()->Quotation_0),
                        old(self).env(),
                        s.subrange(0, s.len() - 3).push(s[s.len() - 2]),
                        Seq::empty(),
                        final(self).env(),
                        final(self).stack(),
                        r,
                    ),
                }
            }),
    {
        self.foldl_with(MAX_DEPTH)
    }
}

} // verus!
