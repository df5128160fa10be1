//! The interpreter's state and the operations that make one step on it.
use vstd::prelude::*;
use crate::host::{is_zero, negate, Host};
use crate::grammar::{int_spec, is_white, is_float_literal};
use crate::lexical::{int_of, is_float_chars, is_white_char};
use crate::ops::{
    append_spec, binary_ok, cons_spec, dup_spec, equal_spec, not_value, pop_spec, swap_spec,
    unary_spec, BinOp,
};
use crate::text::{chars_of, string_of};
use crate::value::{
    copy_all, head_spec, is_empty_spec, length_spec, lemma_views, res_view, tail_spec, views,
    EvalError, StackValue, Val,
};

verus! {

broadcast use lemma_views;

/// The most closures and blocks evaluated inside one another.
pub const MAX_DEPTH: u64 = 64;

/// The value bound to `name` in a symbol table: the latest binding wins.
pub open spec fn lookup_spec(syms: Seq<(String, StackValue)>, name: Seq<char>) -> Option<Val>
    decreases syms.len(),
{
    if syms.len() == 0 {
        None
    } else if syms.last().0@ == name {
        Some(syms.last().1@)
    } else {
        lookup_spec(syms.drop_last(), name)
    }
}

/// A symbol table as a map from names to the values bound to them.
pub open spec fn table_map(syms: Seq<(String, StackValue)>) -> Map<Seq<char>, Val> {
    Map::new(|n: Seq<char>| lookup_spec(syms, n) is Some, |n: Seq<char>| lookup_spec(syms, n)->Some_0)
}

/// The words of a text: its maximal runs of characters that are not white
/// space.
pub open spec fn words_spec(s: Seq<char>) -> Seq<Seq<char>>
    decreases s.len(),
{
    if s.len() == 0 {
        Seq::empty()
    } else if is_white(s.last()) {
        words_spec(s.drop_last())
    } else if s.len() >= 2 && !is_white(s[s.len() - 2]) {
        let w = words_spec(s.drop_last());
        w.update(w.len() - 1, w.last().push(s.last()))
    } else {
        words_spec(s.drop_last()).push(seq![s.last()])
    }
}

/// The interpreter: a stack of values, a symbol table, and the host it
/// works with.
pub struct Stack<H: Host> {
    /// The stack; its last element is the top.
    pub data: Vec<StackValue>,
    /// Bindings of names to values; a later binding hides an earlier one.
    pub symbols: Vec<(String, StackValue)>,
    /// The host that computes floats and reads and prints lines.
    pub host: H,
}

impl<H: Host> Stack<H> {
    /// The model of the stack, bottom first.
    pub open spec fn stack(&self) -> Seq<Val> {
        views(self.data@)
    }

    /// The value bound to `name`, if any.
    pub open spec fn binding(&self, name: Seq<char>) -> Option<Val> {
        lookup_spec(self.symbols@, name)
    }

    /// The bindings, as a map from names to values.
    pub open spec fn env(&self) -> Map<Seq<char>, Val> {
        table_map(self.symbols@)
    }

    /// An interpreter with an empty stack and no bindings.
    pub fn new(host: H) -> (r: Self)
        ensures
            r.stack() == Seq::<Val>::empty(),
            forall|n: Seq<char>| #[trigger] r.binding(n) is None,
    {
        let r = Stack { data: Vec::new(), symbols: Vec::new(), host };
        assert(r.stack() =~= Seq::<Val>::empty());
        r
    }

    /// Pushes a value.
    pub fn push(&mut self, value: StackValue)
        ensures
            final(self).stack() == old(self).stack().push(value@),
            final(self).symbols == old(self).symbols,
    {
        self.data.push(value);
        assert(self.stack() =~= old(self).stack().push(value@));
    }

    /// Removes and returns the top, if any.
    pub fn pop(&mut self) -> (r: Option<StackValue>)
        ensures
            old(self).stack().len() == 0 ==> r is None && final(self).stack() == old(self).stack(),
            old(self).stack().len() > 0 ==> r is Some && r->Some_0@ == old(self).stack().last()
                && final(self).stack() == old(self).stack().drop_last(),
            final(self).symbols == old(self).symbols,
    {
        let r = self.data.pop();
        assert(self.stack() =~= if old(self).stack().len() == 0 {
            old(self).stack()
        } else {
            old(self).stack().drop_last()
        });
        r
    }

    /// `dup`: copies the top onto the top.
    pub fn dup(&mut self) -> (r: Result<(), EvalError>)
        ensures
            match dup_spec(old(self).stack()) {
                Ok(s) => r is Ok && final(self).stack() == s,
                Err(e) => r == Err::<(), EvalError>(e),
            },
            final(self).symbols == old(self).symbols,
    {
        let n = self.data.len();
        if n == 0 {
            return Err(EvalError::Arity);
        }
        let top = self.data[n - 1].copy();
        self.push(top);
        Ok(())
    }

    /// `swap`: exchanges the two top values.
    pub fn swap(&mut self) -> (r: Result<(), EvalError>)
        ensures
            match swap_spec(old(self).stack()) {
                Ok(s) => r is Ok && final(self).stack() == s,
                Err(e) => r == Err::<(), EvalError>(e),
            },
            final(self).symbols == old(self).symbols,
    {
        if self.data.len() < 2 {
            return Err(EvalError::Arity);
        }
        let a = self.data.pop().unwrap();
        let b = self.data.pop().unwrap();
        self.data.push(a);
        self.data.push(b);
        assert(self.stack() =~= swap_spec(old(self).stack())->Ok_0);
        Ok(())
    }

    /// `pop` as a command: drops the top.
    pub fn drop_top(&mut self) -> (r: Result<(), EvalError>)
        ensures
            match pop_spec(old(self).stack()) {
                Ok(s) => r is Ok && final(self).stack() == s,
                Err(e) => r == Err::<(), EvalError>(e),
            },
            final(self).symbols == old(self).symbols,
    {
        match self.pop() {
            Some(_) => Ok(()),
            None => Err(EvalError::Arity),
        }
    }

    /// `cons`: puts the item below the top in front of the list on top.
    pub fn cons(&mut self) -> (r: Result<(), EvalError>)
        ensures
            match cons_spec(old(self).stack()) {
                Ok(s) => r is Ok && final(self).stack() == s,
                Err(e) => r == Err::<(), EvalError>(e),
            },
            final(self).symbols == old(self).symbols,
    {
        if self.data.len() < 2 {
            return Err(EvalError::Arity);
        }
        let list = self.data.pop().unwrap();
        let item = self.data.pop().unwrap();
        match list {
            StackValue::Vec(l) => {
                let mut v: Vec<StackValue> = Vec::new();
                v.push(item);
                let mut i: usize = 0;
                while i < l.len()
                    invariant
                        i <= l@.len(),
                        v@.len() == i + 1,
                        v@[0]@ == old(self).stack()[old(self).stack().len() - 2],
                        forall|j: int| 0 <= j < i ==> #[trigger] v@[j + 1]@ == l@[j]@,
                    decreases l.len() - i,
                {
                    v.push(l[i].copy());
                    i += 1;
                }
                let ghost want = seq![old(self).stack()[old(self).stack().len() - 2]] + views(l@);
                assert forall|k: int| 0 <= k < v@.len() implies views(v@)[k] == want[k] by {
                    lemma_views(v@);
                    lemma_views(l@);
                    if k > 0 {
                        assert(v@[(k - 1) + 1]@ == l@[k - 1]@);
                    }
                }
                assert(views(v@) =~= want);
                self.data.push(StackValue::Vec(v));
                assert(self.stack() =~= cons_spec(old(self).stack())->Ok_0);
                Ok(())
            },
            _ => Err(EvalError::Type),
        }
    }

    /// `append`: the list on top followed by the list below it.
    pub fn append(&mut self) -> (r: Result<(), EvalError>)
        ensures
            match append_spec(old(self).stack()) {
                Ok(s) => r is Ok && final(self).stack() == s,
                Err(e) => r == Err::<(), EvalError>(e),
            },
            final(self).symbols == old(self).symbols,
    {
        if self.data.len() < 2 {
            return Err(EvalError::Arity);
        }
        let first = self.data.pop().unwrap();
        let second = self.data.pop().unwrap();
        match (first, second) {
            (StackValue::Vec(top), StackValue::Vec(below)) => {
                let mut v = copy_all(&top);
                let mut i: usize = 0;
                let ghost n0 = v@.len();
                assert forall|j: int| 0 <= j < n0 implies #[trigger] v@[j]@ == top@[j]@ by {
                    assert(views(v@)[j] == views(top@)[j]);
                }
                while i < below.len()
                    invariant
                        i <= below@.len(),
                        n0 == top@.len(),
                        v@.len() == n0 + i,
                        forall|j: int| 0 <= j < n0 ==> #[trigger] v@[j]@ == top@[j]@,
                        forall|j: int| 0 <= j < i ==> #[trigger] v@[n0 + j]@ == below@[j]@,
                    decreases below.len() - i,
                {
                    v.push(below[i].copy());
                    i += 1;
                }
                let ghost want = views(top@) + views(below@);
                assert forall|k: int| 0 <= k < v@.len() implies views(v@)[k] == want[k] by {
                    lemma_views(v@);
                    lemma_views(top@);
                    lemma_views(below@);
                    if k >= n0 {
                        assert(v@[n0 + (k - n0)]@ == below@[k - n0]@);
                    }
                }
                assert(views(v@) =~= want);
                self.data.push(StackValue::Vec(v));
                assert(self.stack() =~= append_spec(old(self).stack())->Ok_0);
                Ok(())
            },
            _ => Err(EvalError::Type),
        }
    }
}


/// Whether two vectors of values are equal, element by element.
pub fn lists_equal(a: &Vec<StackValue>, b: &Vec<StackValue>) -> (r: bool)
    ensures
        r == (views(a@) == views(b@)),
    decreases a,
{
    proof {
        lemma_views(a@);
        lemma_views(b@);
    }
    if a.len() != b.len() {
        return false;
    }
    let mut i: usize = 0;
    while i < a.len()
        invariant
            i <= a@.len() == b@.len(),
            forall|j: int| 0 <= j < i ==> #[trigger] a@[j]@ == b@[j]@,
        decreases a.len() - i,
    {
        if !values_equal(&a[i], &b[i]) {
            proof {
                lemma_views(a@);
                lemma_views(b@);
            }
            assert(views(a@)[i as int] != views(b@)[i as int]);
            return false;
        }
        i += 1;
    }
    assert(views(a@) =~= views(b@));
    true
}

/// Whether two values are structurally equal; floats are compared by
/// their bit patterns.
pub fn values_equal(a: &StackValue, b: &StackValue) -> (r: bool)
    ensures
        r == (a@ == b@),
    decreases a,
{
    match (a, b) {
        (StackValue::Int(x), StackValue::Int(y)) => {
            assert(a@ == Val::Int(*x) && b@ == Val::Int(*y));
            *x == *y
        },
        (StackValue::Float(x), StackValue::Float(y)) => {
            assert(a@ == Val::Float(*x) && b@ == Val::Float(*y));
            *x == *y
        },
        (StackValue::Bool(x), StackValue::Bool(y)) => {
            assert(a@ == Val::Bool(*x) && b@ == Val::Bool(*y));
            *x == *y
        },
        (StackValue::String(x), StackValue::String(y)) => {
            assert(a@ == Val::Text(x@) && b@ == Val::Text(y@));
            x.eq(y)
        },
        (StackValue::Vec(x), StackValue::Vec(y)) => {
            assert(a@ == Val::List(views(x@)) && b@ == Val::List(views(y@)));
            lists_equal(x, y)
        },
        (StackValue::Symbol(x), StackValue::Symbol(y)) => {
            assert(a@ == Val::Symbol(x@) && b@ == Val::Symbol(y@));
            x.eq(y)
        },
        (StackValue::Quotation(x), StackValue::Quotation(y)) => {
            assert(a@ == Val::Quotation(views(x@)) && b@ == Val::Quotation(views(y@)));
            lists_equal(x, y)
        },
        _ => {
            assert(crate::value::tag(a@) != crate::value::tag(b@));
            false
        },
    }
}

/// The words of a text, as text values.
pub fn split_words(s: &Vec<char>) -> (r: Vec<StackValue>)
    ensures
        views(r@) == words_spec(s@).map_values(|w: Seq<char>| Val::Text(w)),
{
    let mut done: Vec<Vec<char>> = Vec::new();
    let mut cur: Vec<char> = Vec::new();
    let mut i: usize = 0;
    assert(s@.subrange(0, 0) =~= Seq::<char>::empty());
    while i < s.len()
        invariant
            i <= s@.len(),
            cur@.len() > 0 <==> (i > 0 && !is_white(s@[i - 1])),
            (if cur@.len() > 0 {
                done@.map_values(|p: Vec<char>| p@).push(cur@)
            } else {
                done@.map_values(|p: Vec<char>| p@)
            }) == words_spec(s@.subrange(0, i as int)),
        decreases s.len() - i,
    {
        let ghost pre = s@.subrange(0, i + 1);
        assert(pre.drop_last() =~= s@.subrange(0, i as int));
        if is_white_char(s[i]) {
            if cur.len() > 0 {
                let w = cur;
                proof {
                    assert(done@.push(w).map_values(|p: Vec<char>| p@) =~= done@.map_values(
                        |p: Vec<char>| p@,
                    ).push(w@));
                }
                done.push(w);
                cur = Vec::new();
            }
        } else {
            let ghost before = cur@;
            cur.push(s[i]);
            proof {
                if before.len() > 0 {
                    assert(pre[pre.len() - 2] == s@[i - 1]);
                    assert(done@.map_values(|p: Vec<char>| p@).push(cur@) =~= done@.map_values(
                        |p: Vec<char>| p@,
                    ).push(before).update(done@.len() as int, before.push(s@[i as int])));
                } else {
                    assert(cur@ =~= seq![s@[i as int]]);
                }
            }
        }
        i += 1;
    }
    assert(s@.subrange(0, i as int) =~= s@);
    if cur.len() > 0 {
        let w = cur;
        proof {
            assert(done@.push(w).map_values(|p: Vec<char>| p@) =~= done@.map_values(
                |p: Vec<char>| p@,
            ).push(w@));
        }
        done.push(w);
    }
    let mut r: Vec<StackValue> = Vec::new();
    let mut k: usize = 0;
    while k < done.len()
        invariant
            k <= done@.len(),
            r@.len() == k,
            forall|j: int| 0 <= j < k ==> #[trigger] r@[j]@ == Val::Text(done@[j]@),
        decreases done.len() - k,
    {
        r.push(StackValue::String(string_of(&done[k])));
        k += 1;
    }
    assert(views(r@) =~= words_spec(s@).map_values(|w: Seq<char>| Val::Text(w)));
    r
}

impl<H: Host> Stack<H> {
    /// The result of a binary operator on two values.
    pub fn compute(&self, op: BinOp, left: &StackValue, right: &StackValue) -> (out: Result<
        StackValue,
        EvalError,
    >)
        ensures
            binary_ok(op, left@, right@, res_view(out)),
    {
        match (left, right) {
            (StackValue::Int(x), StackValue::Int(y)) => {
                let a = *x as i64;
                let b = *y as i64;
                let wide: i64 = match op {
                    BinOp::Add => a + b,
                    BinOp::Sub => a - b,
                    BinOp::Mul => {
                        assert(-4611686018427387904 <= a * b <= 4611686018427387904)
                            by (nonlinear_arith)
                            requires
                                -2147483648 <= a <= 2147483647,
                                -2147483648 <= b <= 2147483647,
                        ;
                        a * b
                    },
                    BinOp::Div => {
                        if b == 0 {
                            return Err(EvalError::Arithmetic);
                        }
                        let ua: u64 = if a < 0 { (-a) as u64 } else { a as u64 };
                        let ub: u64 = if b < 0 { (-b) as u64 } else { b as u64 };
                        let q: u64 = ua / ub;
                        assert(q <= ua) by (nonlinear_arith)
                            requires
                                ub >= 1,
                                q == ua / ub,
                        ;
                        if (a < 0) != (b < 0) {
                            -(q as i64)
                        } else {
                            q as i64
                        }
                    },
                    BinOp::FDiv => {
                        if b == 0 {
                            return Err(EvalError::Arithmetic);
                        }
                        return Ok(StackValue::Float(self.host.div_ints(*x, *y)));
                    },
                    BinOp::Lt => {
                        return Ok(StackValue::Bool(*x < *y));
                    },
                    BinOp::Gt => {
                        return Ok(StackValue::Bool(*x > *y));
                    },
                    _ => {
                        return Err(EvalError::Type);
                    },
                };
                if wide < i32::MIN as i64 || wide > i32::MAX as i64 {
                    Err(EvalError::Arithmetic)
                } else {
                    Ok(StackValue::Int(wide as i32))
                }
            },
            (StackValue::Float(x), StackValue::Float(y)) => match op {
                BinOp::Add => Ok(StackValue::Float(self.host.add(*x, *y))),
                BinOp::Sub => Ok(StackValue::Float(self.host.sub(*x, *y))),
                BinOp::Mul => Ok(StackValue::Float(self.host.mul(*x, *y))),
                BinOp::FDiv => {
                    if is_zero(*y) {
                        Err(EvalError::Arithmetic)
                    } else {
                        Ok(StackValue::Float(self.host.div(*x, *y)))
                    }
                },
                BinOp::Lt => Ok(StackValue::Bool(self.host.less(*x, *y))),
                BinOp::Gt => Ok(StackValue::Bool(self.host.less(*y, *x))),
                _ => Err(EvalError::Type),
            },
            (StackValue::Bool(x), StackValue::Bool(y)) => match op {
                BinOp::And => Ok(StackValue::Bool(*x && *y)),
                BinOp::Or => Ok(StackValue::Bool(*x || *y)),
                _ => Err(EvalError::Type),
            },
            _ => Err(EvalError::Type),
        }
    }

    /// A binary operator: pops the right operand, then the left one, and
    /// pushes the result.
    pub fn binary_op(&mut self, op: BinOp) -> (r: Result<(), EvalError>)
        ensures
            old(self).stack().len() < 2 ==> r == Err::<(), EvalError>(EvalError::Arity)
                && final(self).stack() == old(self).stack(),
            old(self).stack().len() >= 2 ==> ({
                let s = old(self).stack();
                let t = final(self).stack();
                match r {
                    Ok(_) => t.len() == s.len() - 1 && t.drop_last() == s.drop_last().drop_last()
                        && binary_ok(op, s[s.len() - 2], s.last(), Ok(t.last())),
                    Err(e) => binary_ok(op, s[s.len() - 2], s.last(), Err(e)),
                }
            }),
            final(self).symbols == old(self).symbols,
    {
        if self.data.len() < 2 {
            return Err(EvalError::Arity);
        }
        let right = self.data.pop().unwrap();
        let left = self.data.pop().unwrap();
        match self.compute(op, &left, &right) {
            Ok(v) => {
                self.data.push(v);
                assert(self.stack().drop_last() =~= old(self).stack().drop_last().drop_last());
                Ok(())
            },
            Err(e) => Err(e),
        }
    }

    /// `==`: pops two values and pushes whether they are equal.
    pub fn equal(&mut self) -> (r: Result<(), EvalError>)
        ensures
            match equal_spec(old(self).stack()) {
                Ok(s) => r is Ok && final(self).stack() == s,
                Err(e) => r == Err::<(), EvalError>(e),
            },
            final(self).symbols == old(self).symbols,
    {
        if self.data.len() < 2 {
            return Err(EvalError::Arity);
        }
        let right = self.data.pop().unwrap();
        let left = self.data.pop().unwrap();
        let same = values_equal(&left, &right);
        self.data.push(StackValue::Bool(same));
        assert(self.stack() =~= equal_spec(old(self).stack())->Ok_0);
        Ok(())
    }

    /// Replaces the top by `f` of it, where `f` is given by `which`:
    /// negation, `head`, `tail`, `empty` or `length`.
    fn unary_value(which: u8, v: &StackValue) -> (out: Result<StackValue, EvalError>)
        ensures
            which == 0 ==> res_view(out) == not_value(v@),
            which == 1 ==> res_view(out) == head_spec(v@),
            which == 2 ==> res_view(out) == tail_spec(v@),
            which == 3 ==> res_view(out) == is_empty_spec(v@),
            which >= 4 ==> res_view(out) == length_spec(v@),
    {
        if which == 0 {
            match v {
                StackValue::Int(x) => if *x == i32::MIN {
                    Err(EvalError::Arithmetic)
                } else {
                    Ok(StackValue::Int(-*x))
                },
                StackValue::Float(f) => Ok(StackValue::Float(negate(*f))),
                StackValue::Bool(b) => Ok(StackValue::Bool(!*b)),
                _ => Err(EvalError::Type),
            }
        } else if which == 1 {
            v.head()
        } else if which == 2 {
            v.tail()
        } else if which == 3 {
            v.is_empty()
        } else {
            v.length()
        }
    }

    /// Applies a unary operation to the top (see `unary_value`).
    fn unary(&mut self, which: u8) -> (r: Result<(), EvalError>)
        ensures
            ({
                let s = old(self).stack();
                let v = s.last();
                let out = if which == 0 {
                    not_value(v)
                } else if which == 1 {
                    head_spec(v)
                } else if which == 2 {
                    tail_spec(v)
                } else if which == 3 {
                    is_empty_spec(v)
                } else {
                    length_spec(v)
                };
                match unary_spec(s, out) {
                    Ok(t) => r is Ok && final(self).stack() == t,
                    Err(e) => r == Err::<(), EvalError>(e),
                }
            }),
            final(self).symbols == old(self).symbols,
    {
        match self.data.pop() {
            None => Err(EvalError::Arity),
            Some(v) => match Self::unary_value(which, &v) {
                Ok(w) => {
                    self.data.push(w);
                    assert(self.stack() =~= old(self).stack().drop_last().push(w@));
                    Ok(())
                },
                Err(e) => Err(e),
            },
        }
    }

    /// `not`: negates a number or inverts a Boolean.
    pub fn negate_top(&mut self) -> (r: Result<(), EvalError>)
        ensures
            match unary_spec(old(self).stack(), not_value(old(self).stack().last())) {
                Ok(t) => r is Ok && final(self).stack() == t,
                Err(e) => r == Err::<(), EvalError>(e),
            },
            final(self).symbols == old(self).symbols,
    {
        self.unary(0)
    }

    /// `head`: replaces a list on top by its first element.
    pub fn head_top(&mut self) -> (r: Result<(), EvalError>)
        ensures
            match unary_spec(old(self).stack(), head_spec(old(self).stack().last())) {
                Ok(t) => r is Ok && final(self).stack() == t,
                Err(e) => r == Err::<(), EvalError>(e),
            },
            final(self).symbols == old(self).symbols,
    {
        self.unary(1)
    }

    /// `tail`: replaces a list on top by the list without its first element.
    pub fn tail_top(&mut self) -> (r: Result<(), EvalError>)
        ensures
            match unary_spec(old(self).stack(), tail_spec(old(self).stack().last())) {
                Ok(t) => r is Ok && final(self).stack() == t,
                Err(e) => r == Err::<(), EvalError>(e),
            },
            final(self).symbols == old(self).symbols,
    {
        self.unary(2)
    }

    /// `empty`: replaces a list on top by whether it is empty.
    pub fn empty_top(&mut self) -> (r: Result<(), EvalError>)
        ensures
            match unary_spec(old(self).stack(), is_empty_spec(old(self).stack().last())) {
                Ok(t) => r is Ok && final(self).stack() == t,
                Err(e) => r == Err::<(), EvalError>(e),
            },
            final(self).symbols == old(self).symbols,
    {
        self.unary(3)
    }

    /// `length`: replaces a list on top by its length.
    pub fn length_top(&mut self) -> (r: Result<(), EvalError>)
        ensures
            match unary_spec(old(self).stack(), length_spec(old(self).stack().last())) {
                Ok(t) => r is Ok && final(self).stack() == t,
                Err(e) => r == Err::<(), EvalError>(e),
            },
            final(self).symbols == old(self).symbols,
    {
        self.unary(4)
    }

    /// Pops a text; `Arity` on an empty stack, `Type` on another value.
    fn pop_text(&mut self) -> (r: Result<String, EvalError>)
        ensures
            ({
                let s = old(self).stack();
                if s.len() == 0 {
                    r == Err::<String, EvalError>(EvalError::Arity)
                } else {
                    match s.last() {
                        Val::Text(t) => r is Ok && r->Ok_0@ == t && final(self).stack() == s.drop_last(),
                        _ => r == Err::<String, EvalError>(EvalError::Type),
                    }
                }
            }),
            final(self).symbols == old(self).symbols,
    {
        match self.pop() {
            None => Err(EvalError::Arity),
            Some(StackValue::String(t)) => Ok(t),
            Some(_) => Err(EvalError::Type),
        }
    }

    /// `parseInteger`: replaces a text on top by the integer it spells.
    pub fn parse_integer(&mut self) -> (r: Result<(), EvalError>)
        ensures
            ({
                let s = old(self).stack();
                if s.len() == 0 {
                    r == Err::<(), EvalError>(EvalError::Arity)
                } else {
                    match s.last() {
                        Val::Text(t) => match int_spec(t) {
                            Some(i) => r is Ok && final(self).stack() == s.drop_last().push(Val::Int(i)),
                            None => r == Err::<(), EvalError>(EvalError::Parse),
                        },
                        _ => r == Err::<(), EvalError>(EvalError::Type),
                    }
                }
            }),
            final(self).symbols == old(self).symbols,
    {
        let t = self.pop_text()?;
        let cs = chars_of(t.as_str());
        match int_of(&cs) {
            Some(i) => {
                self.push(StackValue::Int(i));
                Ok(())
            },
            None => Err(EvalError::Parse),
        }
    }

    /// `parseFloat`: replaces a text on top by the float it spells.
    pub fn parse_float(&mut self) -> (r: Result<(), EvalError>)
        ensures
            ({
                let s = old(self).stack();
                if s.len() == 0 {
                    r == Err::<(), EvalError>(EvalError::Arity)
                } else {
                    match s.last() {
                        Val::Text(t) => if is_float_literal(t) {
                            r is Ok && final(self).stack().drop_last() == s.drop_last()
                                && final(self).stack().len() == s.len()
                                && final(self).stack().last() is Float
                        } else {
                            r == Err::<(), EvalError>(EvalError::Parse)
                        },
                        _ => r == Err::<(), EvalError>(EvalError::Type),
                    }
                }
            }),
            final(self).symbols == old(self).symbols,
    {
        let t = self.pop_text()?;
        let cs = chars_of(t.as_str());
        if is_float_chars(&cs) {
            let f = self.host.from_literal(t.as_str());
            self.push(StackValue::Float(f));
            assert(self.stack().drop_last() =~= old(self).stack().drop_last());
            Ok(())
        } else {
            Err(EvalError::Parse)
        }
    }

    /// `words`: replaces a text on top by the list of its words.
    pub fn words(&mut self) -> (r: Result<(), EvalError>)
        ensures
            ({
                let s = old(self).stack();
                if s.len() == 0 {
                    r == Err::<(), EvalError>(EvalError::Arity)
                } else {
                    match s.last() {
                        Val::Text(t) => r is Ok && final(self).stack() == s.drop_last().push(
                            Val::List(words_spec(t).map_values(|w: Seq<char>| Val::Text(w))),
                        ),
                        _ => r == Err::<(), EvalError>(EvalError::Type),
                    }
                }
            }),
            final(self).symbols == old(self).symbols,
    {
        let t = self.pop_text()?;
        let cs = chars_of(t.as_str());
        let ws = split_words(&cs);
        self.push(StackValue::Vec(ws));
        Ok(())
    }

    /// The value bound to a name, copied.
    pub fn lookup(&self, name: &String) -> (r: Option<StackValue>)
        ensures
            match self.binding(name@) {
                Some(v) => r is Some && r->Some_0@ == v,
                None => r is None,
            },
    {
        let mut i: usize = self.symbols.len();
        assert(self.symbols@.subrange(0, i as int) =~= self.symbols@);
        while i > 0
            invariant
                i <= self.symbols@.len(),
                lookup_spec(self.symbols@, name@) == lookup_spec(
                    self.symbols@.subrange(0, i as int),
                    name@,
                ),
            decreases i,
        {
            let ghost pre = self.symbols@.subrange(0, i as int);
            assert(pre.drop_last() =~= self.symbols@.subrange(0, i - 1));
            if self.symbols[i - 1].0 == *name {
                return Some(self.symbols[i - 1].1.copy());
            }
            i -= 1;
        }
        None
    }

    /// Binds a name to a value.
    pub fn bind(&mut self, name: String, value: StackValue)
        ensures
            final(self).binding(name@) == Some(value@),
            forall|n: Seq<char>| n != name@ ==> #[trigger] final(self).binding(n) == old(self).binding(n),
            final(self).env() == old(self).env().insert(name@, value@),
            final(self).stack() == old(self).stack(),
    {
        let ghost v = value@;
        let ghost key = name@;
        self.symbols.push((name, value));
        assert(self.symbols@.drop_last() =~= old(self).symbols@);
        assert(self.env() =~= old(self).env().insert(key, v));
    }

    /// `:=`: pops a value, then a symbol, and binds the symbol's name to the
    /// value.
    pub fn assignment(&mut self) -> (r: Result<(), EvalError>)
        ensures
            ({
                let s = old(self).stack();
                if s.len() < 2 {
                    r == Err::<(), EvalError>(EvalError::Arity)
                } else {
                    match s[s.len() - 2] {
                        Val::Symbol(n) => r is Ok && final(self).stack() == s.drop_last().drop_last()
                            && final(self).binding(n) == Some(s.last()) && (forall|m: Seq<char>|
                            m != n ==> #[trigger] final(self).binding(m) == old(self).binding(m))
                            && final(self).env() == old(self).env().insert(n, s.last()),
                        _ => r == Err::<(), EvalError>(EvalError::Type),
                    }
                }
            }),
            r is Err ==> final(self).symbols == old(self).symbols,
    {
        if self.data.len() < 2 {
            return Err(EvalError::Arity);
        }
        let value = self.data.pop().unwrap();
        let name = self.data.pop().unwrap();
        assert(self.stack() =~= old(self).stack().drop_last().drop_last());
        match name {
            StackValue::Symbol(n) => {
                self.bind(n, value);
                Ok(())
            },
            _ => Err(EvalError::Type),
        }
    }
}

} // verus!
