use stacklang::host::Host;
use stacklang::ops::BinOp;
use stacklang::parser::parse_value;
use stacklang::render::render;
use stacklang::stack::Stack;
use stacklang::tokenizer::tokenize;
use stacklang::value::{EvalError, StackValue};

/// A host that computes with `f64`, reads from a queue of lines and
/// records what is printed.
struct TestHost {
    input: Vec<String>,
    output: Vec<String>,
}

impl TestHost {
    fn new() -> TestHost {
        TestHost { input: Vec::new(), output: Vec::new() }
    }
}

fn f(x: f64) -> u64 {
    x.to_bits()
}

fn g(bits: u64) -> f64 {
    f64::from_bits(bits)
}

impl Host for TestHost {
    fn add(&self, a: u64, b: u64) -> u64 {
        f(g(a) + g(b))
    }
    fn sub(&self, a: u64, b: u64) -> u64 {
        f(g(a) - g(b))
    }
    fn mul(&self, a: u64, b: u64) -> u64 {
        f(g(a) * g(b))
    }
    fn div(&self, a: u64, b: u64) -> u64 {
        f(g(a) / g(b))
    }
    fn div_ints(&self, a: i32, b: i32) -> u64 {
        f(a as f64 / b as f64)
    }
    fn less(&self, a: u64, b: u64) -> bool {
        g(a) < g(b)
    }
    fn from_literal(&self, text: &str) -> u64 {
        f(text.parse::<f64>().unwrap())
    }
    fn render_float(&self, a: u64) -> String {
        format!("{}", g(a))
    }
    fn read_line(&mut self) -> Option<String> {
        if self.input.is_empty() {
            None
        } else {
            Some(self.input.remove(0))
        }
    }
    fn print_line(&mut self, line: &str) {
        self.output.push(line.to_string());
    }
}

fn new_stack() -> Stack<TestHost> {
    Stack::new(TestHost::new())
}

fn execute_and_get_top(stack: &mut Stack<TestHost>, code: &str) -> Result<StackValue, EvalError> {
    stack.parse(code)?;
    stack.pop().ok_or(EvalError::Arity)
}

fn execute_and_get_top_two(
    stack: &mut Stack<TestHost>,
    code: &str,
) -> Result<(StackValue, StackValue), EvalError> {
    stack.parse(code)?;
    let top = stack.pop().ok_or(EvalError::Arity)?;
    let second_top = stack.pop().ok_or(EvalError::Arity)?;
    stack.push(second_top.copy());
    stack.push(top.copy());
    Ok((top, second_top))
}

fn ints(v: &[i32]) -> StackValue {
    StackValue::Vec(v.iter().map(|i| StackValue::Int(*i)).collect())
}

fn sym(s: &str) -> StackValue {
    StackValue::Symbol(s.to_string())
}

#[test]
fn literals() {
    let mut stack = new_stack();
    assert_eq!(execute_and_get_top(&mut stack, "3"), Ok(StackValue::Int(3)));
    assert_eq!(execute_and_get_top(&mut stack, "1.0"), Ok(StackValue::Float(f(1.0))));
    assert_eq!(execute_and_get_top(&mut stack, "False"), Ok(StackValue::Bool(false)));
    assert_eq!(execute_and_get_top(&mut stack, "True"), Ok(StackValue::Bool(true)));
}

#[test]
fn simple_arithmetic() {
    let mut stack = new_stack();
    assert_eq!(execute_and_get_top(&mut stack, "1 1 +"), Ok(StackValue::Int(2)));
    assert_eq!(execute_and_get_top(&mut stack, "10 20 *"), Ok(StackValue::Int(200)));
    assert_eq!(execute_and_get_top(&mut stack, "20 2 div"), Ok(StackValue::Int(10)));
    assert_eq!(execute_and_get_top(&mut stack, "20 2 /"), Ok(StackValue::Float(f(10.0))));
    assert_eq!(execute_and_get_top(&mut stack, "20 4 -"), Ok(StackValue::Int(16)));
}

#[test]
fn comparison_operations() {
    let mut stack = new_stack();
    assert_eq!(execute_and_get_top(&mut stack, "1 1 =="), Ok(StackValue::Bool(true)));
    assert_eq!(execute_and_get_top(&mut stack, "1 2 =="), Ok(StackValue::Bool(false)));
    assert_eq!(execute_and_get_top(&mut stack, "1 2 <"), Ok(StackValue::Bool(true)));
    assert_eq!(execute_and_get_top(&mut stack, "1 2 >"), Ok(StackValue::Bool(false)));
    assert_eq!(execute_and_get_top(&mut stack, "True True =="), Ok(StackValue::Bool(true)));
}

#[test]
fn logical_operations() {
    let mut stack = new_stack();
    assert_eq!(execute_and_get_top(&mut stack, "True True &&"), Ok(StackValue::Bool(true)));
    assert_eq!(execute_and_get_top(&mut stack, "True False &&"), Ok(StackValue::Bool(false)));
    assert_eq!(execute_and_get_top(&mut stack, "True False ||"), Ok(StackValue::Bool(true)));
    assert_eq!(execute_and_get_top(&mut stack, "False False ||"), Ok(StackValue::Bool(false)));
    let mut stack = new_stack();
    assert_eq!(execute_and_get_top(&mut stack, "1 not"), Ok(StackValue::Int(-1)));
    assert_eq!(execute_and_get_top(&mut stack, "-2.5 not"), Ok(StackValue::Float(f(2.5))));
    assert_eq!(execute_and_get_top(&mut stack, "True not"), Ok(StackValue::Bool(false)));
    assert_eq!(execute_and_get_top(&mut stack, "False not"), Ok(StackValue::Bool(true)));
}

#[test]
fn list_operations() {
    let mut stack = new_stack();
    assert_eq!(execute_and_get_top(&mut stack, "1 [2,3] cons"), Ok(ints(&[1, 2, 3])));
    assert_eq!(execute_and_get_top(&mut stack, "[3,4] [1,2] append"), Ok(ints(&[1, 2, 3, 4])));
    assert_eq!(execute_and_get_top(&mut stack, "[1,2,3] head"), Ok(StackValue::Int(1)));
    assert_eq!(execute_and_get_top(&mut stack, "[1,2,3] tail"), Ok(ints(&[2, 3])));
    assert_eq!(execute_and_get_top(&mut stack, "[1,2,3] length"), Ok(StackValue::Int(3)));
    assert_eq!(execute_and_get_top(&mut stack, "[1,2,3] empty"), Ok(StackValue::Bool(false)));
}

#[test]
fn stack_operations() {
    let mut stack = new_stack();
    assert_eq!(execute_and_get_top(&mut stack, "push 42"), Ok(StackValue::Int(42)));

    stack.push(StackValue::String("10".to_string()));
    assert_eq!(execute_and_get_top(&mut stack, "parseInteger"), Ok(StackValue::Int(10)));

    assert_eq!(execute_and_get_top(&mut stack, "push 3.14"), Ok(StackValue::Float(f(3.14))));

    stack.push(StackValue::Int(10));
    stack.push(StackValue::Int(100));
    assert_eq!(execute_and_get_top(&mut stack, "swap"), Ok(StackValue::Int(10)));

    stack.push(StackValue::Int(6));
    let (top, second_top) = execute_and_get_top_two(&mut stack, "dup").unwrap();
    assert_eq!(top, StackValue::Int(6));
    assert_eq!(second_top, StackValue::Int(6));

    stack.push(StackValue::String("3.14".to_string()));
    assert_eq!(execute_and_get_top(&mut stack, "parseFloat"), Ok(StackValue::Float(f(3.14))));

    stack.push(StackValue::String("one two three".to_string()));
    assert_eq!(
        execute_and_get_top(&mut stack, "words"),
        Ok(StackValue::Vec(vec![
            StackValue::String("one".to_string()),
            StackValue::String("two".to_string()),
            StackValue::String("three".to_string()),
        ]))
    );
}

#[test]
fn test_process_map() {
    let mut stack = new_stack();
    assert_eq!(
        execute_and_get_top(&mut stack, "10 10 10 [1,2,3] map {*}"),
        Ok(ints(&[10, 20, 30]))
    );
}

#[test]
fn test_process_each() {
    let mut stack = new_stack();
    stack.push(StackValue::Int(10));
    stack.push(ints(&[1, 2, 3]));
    stack.push(StackValue::Quotation(vec![sym("*")]));
    stack.process_each().unwrap();
    assert_eq!(stack.pop(), Some(StackValue::Int(60)));
}

#[test]
fn test_process_foldl() {
    let mut stack = new_stack();
    assert_eq!(execute_and_get_top(&mut stack, "[1,2,3] 0 foldl {+}"), Ok(StackValue::Int(6)));
}

#[test]
fn div_truncates_toward_zero() {
    let mut stack = new_stack();
    assert_eq!(execute_and_get_top(&mut stack, "7 2 div"), Ok(StackValue::Int(3)));
    assert_eq!(execute_and_get_top(&mut stack, "-7 2 div"), Ok(StackValue::Int(-3)));
    assert_eq!(execute_and_get_top(&mut stack, "7 -2 div"), Ok(StackValue::Int(-3)));
    assert_eq!(execute_and_get_top(&mut stack, "-7 -2 div"), Ok(StackValue::Int(3)));
    assert_eq!(execute_and_get_top(&mut stack, "7 2 /"), Ok(StackValue::Float(f(3.5))));
    assert_eq!(execute_and_get_top(&mut stack, "-2147483648 -1 div"), Err(EvalError::Arithmetic));
}

#[test]
fn division_by_zero_fails() {
    let mut stack = new_stack();
    assert_eq!(stack.parse("1 0 div"), Err(EvalError::Arithmetic));
    assert_eq!(stack.parse("1 0 /"), Err(EvalError::Arithmetic));
    assert_eq!(stack.parse("1.0 0.0 /"), Err(EvalError::Arithmetic));
    assert_eq!(stack.parse("1.0 -0.0 /"), Err(EvalError::Arithmetic));
    assert_eq!(stack.data.len(), 0);
}

#[test]
fn mixed_numbers_are_a_type_error() {
    let mut stack = new_stack();
    assert_eq!(stack.parse("1 2.0 +"), Err(EvalError::Type));
    assert_eq!(stack.parse("2.0 1 +"), Err(EvalError::Type));
    assert_eq!(stack.parse("1.5 2.5 div"), Err(EvalError::Type));
    assert_eq!(stack.parse("1 True &&"), Err(EvalError::Type));
    assert_eq!(execute_and_get_top(&mut stack, "1.5 2.5 +"), Ok(StackValue::Float(f(4.0))));
    assert_eq!(execute_and_get_top(&mut stack, "1.5 2.5 <"), Ok(StackValue::Bool(true)));
    assert_eq!(execute_and_get_top(&mut stack, "1.5 2.5 >"), Ok(StackValue::Bool(false)));
}

#[test]
fn integer_overflow_is_an_error() {
    let mut stack = new_stack();
    assert_eq!(stack.parse("2147483647 1 +"), Err(EvalError::Arithmetic));
    assert_eq!(stack.parse("-2147483648 not"), Err(EvalError::Arithmetic));
    assert_eq!(stack.parse("65536 65536 *"), Err(EvalError::Arithmetic));
}

#[test]
fn failed_line_leaves_stack_unchanged() {
    let mut stack = new_stack();
    stack.parse("1 2").unwrap();
    assert_eq!(stack.parse("3 4 + nosuchword"), Err(EvalError::Parse));
    assert_eq!(stack.data, vec![StackValue::Int(1), StackValue::Int(2)]);
    assert_eq!(stack.parse("pop pop pop"), Err(EvalError::Arity));
    assert_eq!(stack.data, vec![StackValue::Int(1), StackValue::Int(2)]);
}

#[test]
fn dup_pop_leaves_stack_unchanged() {
    let mut stack = new_stack();
    stack.parse("1 [2,3] \"x\"").unwrap();
    let before = format!("{:?}", stack.data);
    stack.parse("dup pop").unwrap();
    assert_eq!(format!("{:?}", stack.data), before);
}

#[test]
fn structural_errors() {
    let mut stack = new_stack();
    assert_eq!(stack.parse("dup"), Err(EvalError::Arity));
    assert_eq!(stack.parse("1 swap"), Err(EvalError::Arity));
    assert_eq!(stack.parse("push"), Err(EvalError::Structure));
    assert_eq!(stack.parse("[1,True]"), Err(EvalError::Structure));
    assert_eq!(stack.parse("[1..True]"), Err(EvalError::Structure));
    assert_eq!(stack.parse("[] head"), Err(EvalError::EmptyList));
    assert_eq!(stack.parse("[] tail"), Err(EvalError::EmptyList));
    assert_eq!(stack.parse("1 head"), Err(EvalError::Type));
    assert_eq!(stack.parse("1 2 cons"), Err(EvalError::Type));
    assert_eq!(stack.parse("True if { 1 "), Err(EvalError::Structure));
    assert_eq!(stack.parse("1 2 :="), Err(EvalError::Type));
    assert_eq!(stack.parse("read"), Err(EvalError::Io));
}

#[test]
fn ranges_and_lists() {
    let mut stack = new_stack();
    assert_eq!(execute_and_get_top(&mut stack, "[1..4]"), Ok(ints(&[1, 2, 3, 4])));
    assert_eq!(execute_and_get_top(&mut stack, "[3..1]"), Ok(ints(&[])));
    assert_eq!(execute_and_get_top(&mut stack, "[]"), Ok(ints(&[])));
    assert_eq!(execute_and_get_top(&mut stack, "[] empty"), Ok(StackValue::Bool(true)));
    assert_eq!(execute_and_get_top(&mut stack, "[1,2] [3] =="), Ok(StackValue::Bool(false)));
    assert_eq!(execute_and_get_top(&mut stack, "[1,2] [1,2] =="), Ok(StackValue::Bool(true)));
    assert_eq!(execute_and_get_top(&mut stack, "1 True =="), Ok(StackValue::Bool(false)));
}

#[test]
fn literal_forms() {
    let host = TestHost::new();
    assert_eq!(parse_value(&host, "42"), Ok(StackValue::Int(42)));
    assert_eq!(parse_value(&host, "1,5"), Ok(StackValue::Float(f(1.5))));
    assert_eq!(parse_value(&host, "TRUE"), Ok(StackValue::Bool(true)));
    assert_eq!(parse_value(&host, "\"hi there\""), Ok(StackValue::String("hi there".to_string())));
    assert_eq!(parse_value(&host, "'name'"), Ok(sym("name")));
    assert_eq!(parse_value(&host, "x"), Ok(sym("x")));
    assert_eq!(parse_value(&host, "{1,+}"), Ok(StackValue::Quotation(vec![StackValue::Int(1), sym("+")])));
    assert_eq!(parse_value(&host, "[ 1 , 2 ]"), Ok(ints(&[1, 2])));
    assert_eq!(parse_value(&host, "99999999999"), Ok(StackValue::Float(f(99999999999.0))));
    assert_eq!(parse_value(&host, "hello"), Err(EvalError::Parse));
}

#[test]
fn tokens_keep_quoted_text_together() {
    assert_eq!(tokenize("1  2\t\"a b\" +"), vec!["1", "2", "\"a b\"", "+"]);
    assert_eq!(tokenize("\"open end"), vec!["\"open end"]);
    assert_eq!(tokenize("   "), Vec::<String>::new());
}

#[test]
fn quotation_renders_back_to_its_tokens() {
    let host = TestHost::new();
    let q = parse_value(&host, "{1,2,+}").unwrap();
    assert_eq!(render(&host, &q), "{1 2 +}");
    let q = parse_value(&host, "{-5,dup,*}");
    assert_eq!(q, Err(EvalError::Parse));
    let q = parse_value(&host, "{-5,d,*}").unwrap();
    assert_eq!(render(&host, &q), "{-5 d *}");
}

#[test]
fn rendering_values() {
    let host = TestHost::new();
    assert_eq!(render(&host, &ints(&[1, -2])), "[1, -2]");
    assert_eq!(render(&host, &StackValue::Bool(true)), "true");
    assert_eq!(render(&host, &StackValue::Float(f(2.5))), "2.5");
    let mut stack = new_stack();
    stack.parse("1 2").unwrap();
    assert_eq!(stack.show(), "[1, 2]");
}

#[test]
fn variables_and_assignment() {
    let mut stack = new_stack();
    stack.parse("'x' 5 :=").unwrap();
    assert_eq!(execute_and_get_top(&mut stack, "x x +"), Ok(StackValue::Int(10)));
    stack.parse("'x' 7 :=").unwrap();
    assert_eq!(execute_and_get_top(&mut stack, "x"), Ok(StackValue::Int(7)));
    stack.parse("\"y := 3\"").unwrap_err();
    stack.parse("'sq' {'dup',*} :=").unwrap();
    assert_eq!(execute_and_get_top(&mut stack, "4 sq exec"), Ok(StackValue::Int(16)));
}

#[test]
fn if_keeps_the_chosen_block_result() {
    let mut stack = new_stack();
    assert_eq!(execute_and_get_top(&mut stack, "True if { 1 } { 2 }"), Ok(StackValue::Int(1)));
    assert_eq!(execute_and_get_top(&mut stack, "False if { 1 } { 2 }"), Ok(StackValue::Int(2)));
    assert_eq!(execute_and_get_top(&mut stack, "5 False if { 1 } 7"), Ok(StackValue::Int(7)));
    assert_eq!(stack.pop(), Some(StackValue::Int(5)));
    assert_eq!(
        execute_and_get_top(&mut stack, "True if { True if { 3 } { 4 } } { 5 }"),
        Ok(StackValue::Int(3))
    );
    assert_eq!(stack.parse("1 if { 2 }"), Err(EvalError::Type));
}

#[test]
fn print_and_read_go_through_the_host() {
    let mut host = TestHost::new();
    host.input.push("typed".to_string());
    let mut stack = Stack::new(host);
    stack.parse("read").unwrap();
    assert_eq!(stack.pop(), Some(StackValue::String("typed".to_string())));
    assert_eq!(stack.parse("1 print 2 print nosuchword"), Err(EvalError::Parse));
    assert_eq!(stack.host.output, vec!["1".to_string(), "2".to_string()]);
}

#[test]
fn quotation_errors() {
    let mut stack = new_stack();
    assert_eq!(stack.exec(), Err(EvalError::Arity));
    stack.push(StackValue::Int(1));
    assert_eq!(stack.exec(), Err(EvalError::Type));
    stack.push(StackValue::Quotation(vec![StackValue::Quotation(vec![])]));
    assert_eq!(stack.exec(), Err(EvalError::Type));
    assert_eq!(stack.parse("[1,2] map {'pop'}"), Err(EvalError::Arity));
    assert_eq!(stack.parse("1 each {+}"), Err(EvalError::Type));
}

#[test]
fn direct_operations() {
    let mut stack = new_stack();
    stack.push(ints(&[1]));
    stack.push(ints(&[2]));
    stack.append().unwrap();
    assert_eq!(stack.pop(), Some(ints(&[2, 1])));
    stack.push(StackValue::Int(3));
    stack.push(StackValue::Int(4));
    stack.binary_op(BinOp::Sub).unwrap();
    assert_eq!(stack.pop(), Some(StackValue::Int(-1)));
    assert_eq!(EvalError::Arity.message(), "Not enough elements in the stack");
}

#[test]
fn runaway_recursion_is_cut_off() {
    let mut stack = new_stack();
    stack.parse("'f' {'f','exec'} :=").unwrap();
    assert_eq!(stack.parse("f exec"), Err(EvalError::TooDeep));
    assert_eq!(stack.data.len(), 0);
}

#[test]
fn if_block_used_only_for_printing() {
    let mut stack = new_stack();
    stack.parse("7 True if { 42 print }").unwrap();
    assert_eq!(stack.host.output, vec!["42".to_string()]);
    assert_eq!(stack.pop(), Some(StackValue::Int(7)));
    assert_eq!(stack.pop(), None);
}

#[test]
fn failing_if_block_fails_the_line() {
    let mut stack = new_stack();
    stack.parse("1").unwrap();
    assert_eq!(stack.parse("True if { pop pop }"), Err(EvalError::Arity));
    assert_eq!(stack.data, vec![StackValue::Int(1)]);
    assert_eq!(stack.parse("[1] map"), Err(EvalError::Structure));
    assert_eq!(stack.parse("[1] map nosuchword"), Err(EvalError::Parse));
}

#[test]
fn map_applies_the_quotation_to_each_element() {
    let mut stack = new_stack();
    assert_eq!(execute_and_get_top(&mut stack, "[1,2,3] map {1,+}"), Ok(ints(&[2, 3, 4])));
    stack.push(ints(&[1, 2, 3]));
    stack.push(StackValue::Quotation(vec![StackValue::Int(1), sym("+")]));
    stack.process_map().unwrap();
    assert_eq!(stack.pop(), Some(ints(&[2, 3, 4])));
    stack.push(ints(&[1]));
    stack.push(StackValue::Quotation(vec![sym("pop")]));
    assert_eq!(stack.process_map(), Err(EvalError::Arity));
}
