//! The values the interpreter works on.
use vstd::prelude::*;

verus! {

broadcast use vstd::std_specs::vec::group_vec_axioms, vstd::seq::group_seq_axioms;

/// A value on the stack.
#[derive(Debug, PartialEq)]
pub enum StackValue {
    Int(i32),
    /// The bit pattern of an IEEE-754 binary64 number.
    Float(u64),
    Bool(bool),
    String(String),
    Vec(Vec<StackValue>),
    Symbol(String),
    Quotation(Vec<StackValue>),
}

/// The mathematical model of a [`StackValue`].
pub enum Val {
    Int(i32),
    Float(u64),
    Bool(bool),
    Text(Seq<char>),
    List(Seq<Val>),
    Symbol(Seq<char>),
    Quotation(Seq<Val>),
}

/// The models of a sequence of values.
pub open spec fn views(s: Seq<StackValue>) -> Seq<Val>
    decreases s, 0nat,
{
    if s.len() == 0 {
        Seq::empty()
    } else {
        views(s.drop_last()).push(value_view(s.last()))
    }
}

/// The model of a value.
pub open spec fn value_view(v: StackValue) -> Val
    decreases v, 1nat,
{
    match v {
        StackValue::Int(i) => Val::Int(i),
        StackValue::Float(f) => Val::Float(f),
        StackValue::Bool(b) => Val::Bool(b),
        StackValue::String(s) => Val::Text(s@),
        StackValue::Vec(l) => Val::List(views(l@)),
        StackValue::Symbol(s) => Val::Symbol(s@),
        StackValue::Quotation(q) => Val::Quotation(views(q@)),
    }
}

impl View for StackValue {
    type V = Val;

    open spec fn view(&self) -> Val {
        value_view(*self)
    }
}

/// The variant of a model, as a number.
pub open spec fn tag(v: Val) -> nat {
    match v {
        Val::Int(_) => 0,
        Val::Float(_) => 1,
        Val::Bool(_) => 2,
        Val::Text(_) => 3,
        Val::List(_) => 4,
        Val::Symbol(_) => 5,
        Val::Quotation(_) => 6,
    }
}


/// Why a line, or an operation in it, failed.
#[derive(Debug, Clone, Copy, PartialEq, Eq, Structural)]
pub enum EvalError {
    /// An unrecognized literal or token.
    Parse,
    /// Malformed compound syntax: brackets, braces, ranges, mixed lists.
    Structure,
    /// Fewer stack elements than the operation needs.
    Arity,
    /// An operand of the wrong variant.
    Type,
    /// Division by zero, or an integer result out of range.
    Arithmetic,
    /// `head` or `tail` of an empty list.
    EmptyList,
    /// An input line could not be read.
    Io,
    /// Closures or blocks nested deeper than the interpreter follows.
    TooDeep,
}

impl EvalError {
    /// A short description of the failure.
    pub fn message(&self) -> &'static str {
        match self {
            EvalError::Parse => "Unrecognized token",
            EvalError::Structure => "Malformed list, range or block",
            EvalError::Arity => "Not enough elements in the stack",
            EvalError::Type => "Mismatched types",
            EvalError::Arithmetic => "Division by zero or integer overflow",
            EvalError::EmptyList => "The list is empty",
            EvalError::Io => "Failed to read input",
            EvalError::TooDeep => "Nesting too deep",
        }
    }
}

/// The model of a result holding a value.
pub open spec fn res_view(r: Result<StackValue, EvalError>) -> Result<Val, EvalError> {
    match r {
        Ok(v) => Ok(v@),
        Err(e) => Err(e),
    }
}

/// `views` keeps the length and maps each element to its model.
pub broadcast proof fn lemma_views(s: Seq<StackValue>)
    ensures
        #[trigger] views(s).len() == s.len(),
        forall|i: int| 0 <= i < s.len() ==> #[trigger] views(s)[i] == s[i]@,
    decreases s.len(),
{
    if s.len() > 0 {
        lemma_views(s.drop_last());
    }
}

/// The head of a list model.
pub open spec fn head_spec(v: Val) -> Result<Val, EvalError> {
    match v {
        Val::List(s) => if s.len() > 0 { Ok(s[0]) } else { Err(EvalError::EmptyList) },
        _ => Err(EvalError::Type),
    }
}

/// The tail of a list model.
pub open spec fn tail_spec(v: Val) -> Result<Val, EvalError> {
    match v {
        Val::List(s) => if s.len() > 0 {
            Ok(Val::List(s.drop_first()))
        } else {
            Err(EvalError::EmptyList)
        },
        _ => Err(EvalError::Type),
    }
}

/// Whether a list model is empty.
pub open spec fn is_empty_spec(v: Val) -> Result<Val, EvalError> {
    match v {
        Val::List(s) => Ok(Val::Bool(s.len() == 0)),
        _ => Err(EvalError::Type),
    }
}

/// The length of a list model.
pub open spec fn length_spec(v: Val) -> Result<Val, EvalError> {
    match v {
        Val::List(s) => if s.len() <= i32::MAX {
            Ok(Val::Int(s.len() as i32))
        } else {
            Err(EvalError::Arithmetic)
        },
        _ => Err(EvalError::Type),
    }
}

/// Copies each value of a vector.
pub fn copy_all(l: &Vec<StackValue>) -> (r: Vec<StackValue>)
    ensures
        views(r@) == views(l@),
    decreases l,
{
    broadcast use lemma_views;
    let mut r: Vec<StackValue> = Vec::new();
    let mut i: usize = 0;
    while i < l.len()
        invariant
            i <= l.len(),
            r@.len() == i,
            forall|j: int| 0 <= j < i ==> #[trigger] r@[j]@ == l@[j]@,
        decreases l.len() - i,
    {
        let c = l[i].copy();
        r.push(c);
        i += 1;
    }
    assert(views(r@) =~= views(l@));
    r
}

impl StackValue {
    /// A deep copy of the value.
    pub fn copy(&self) -> (r: StackValue)
        ensures
            r@ == self@,
        decreases self,
    {
        match self {
            StackValue::Int(i) => StackValue::Int(*i),
            StackValue::Float(f) => StackValue::Float(*f),
            StackValue::Bool(b) => StackValue::Bool(*b),
            StackValue::String(s) => StackValue::String(s.clone()),
            StackValue::Vec(l) => StackValue::Vec(copy_all(l)),
            StackValue::Symbol(s) => StackValue::Symbol(s.clone()),
            StackValue::Quotation(q) => StackValue::Quotation(copy_all(q)),
        }
    }

    /// Whether two values have the same variant.
    pub fn same_type(&self, other: &Self) -> (r: bool)
        ensures
            r == (tag(self@) == tag(other@)),
    {
        match (self, other) {
            (StackValue::Int(_), StackValue::Int(_)) => true,
            (StackValue::Float(_), StackValue::Float(_)) => true,
            (StackValue::Bool(_), StackValue::Bool(_)) => true,
            (StackValue::String(_), StackValue::String(_)) => true,
            (StackValue::Vec(_), StackValue::Vec(_)) => true,
            (StackValue::Symbol(_), StackValue::Symbol(_)) => true,
            (StackValue::Quotation(_), StackValue::Quotation(_)) => true,
            _ => false,
        }
    }

    /// The first element of a list.
    pub fn head(&self) -> (r: Result<StackValue, EvalError>)
        ensures
            res_view(r) == head_spec(self@),
    {
        broadcast use lemma_views;
        match self {
            StackValue::Vec(l) => {
                assert(self@ == Val::List(views(l@)));
                if l.len() > 0 {
                    assert(views(l@)[0] == l@[0]@);
                    Ok(l[0].copy())
                } else {
                    Err(EvalError::EmptyList)
                }
            },
            _ => Err(EvalError::Type),
        }
    }

    /// A list without its first element.
    pub fn tail(&self) -> (r: Result<StackValue, EvalError>)
        ensures
            res_view(r) == tail_spec(self@),
    {
        broadcast use lemma_views;
        match self {
            StackValue::Vec(l) => {
                if l.len() > 0 {
                    let mut t: Vec<StackValue> = Vec::new();
                    let mut i: usize = 1;
                    while i < l.len()
                        invariant
                            1 <= i <= l.len(),
                            t@.len() == i - 1,
                            forall|j: int| 0 <= j < i - 1 ==> #[trigger] t@[j]@ == l@[j + 1]@,
                        decreases l.len() - i,
                    {
                        t.push(l[i].copy());
                        i += 1;
                    }
                    assert(views(t@) =~= views(l@).drop_first());
                    Ok(StackValue::Vec(t))
                } else {
                    Err(EvalError::EmptyList)
                }
            },
            _ => Err(EvalError::Type),
        }
    }

    /// Whether a list is empty, as a Boolean value.
    pub fn is_empty(&self) -> (r: Result<StackValue, EvalError>)
        ensures
            res_view(r) == is_empty_spec(self@),
    {
        broadcast use lemma_views;
        match self {
            StackValue::Vec(l) => Ok(StackValue::Bool(l.len() == 0)),
            _ => Err(EvalError::Type),
        }
    }

    /// The length of a list, as an integer value.
    pub fn length(&self) -> (r: Result<StackValue, EvalError>)
        ensures
            res_view(r) == length_spec(self@),
    {
        broadcast use lemma_views;
        match self {
            StackValue::Vec(l) => {
                assert(self@ == Val::List(views(l@)));
                if l.len() <= i32::MAX as usize {
                    Ok(StackValue::Int(l.len() as i32))
                } else {
                    Err(EvalError::Arithmetic)
                }
            },
            _ => Err(EvalError::Type),
        }
    }
}

} // verus!
