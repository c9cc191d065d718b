use rasp::ast::AST;
use rasp::bytecode::{Bytecode, ToBytecode};
use rasp::error::{Error, ErrorKind};
use rasp::internal::{FunTable, TypeTable};
use rasp::lexer::Lexer;
use rasp::num::Num;
use rasp::parser::Parser;
use rasp::preprocessor::Preprocessor;
use rasp::value::Value;
use rasp::vm::{Step, VM};

fn parse(src: &str) -> Result<Vec<AST>, Error> {
    let mut parser = Parser::new(Lexer::new(src));
    parser.parse()
}

fn prepare(src: &str) -> Result<(Vec<Bytecode>, FunTable, TypeTable), Error> {
    let mut ast = parse(src)?;
    let mut funs = FunTable::new(Vec::new());
    let mut types = TypeTable::new(Vec::new());
    Preprocessor::new("test.rasp").preprocess(&mut ast, &mut funs, &mut types, Vec::new())?;
    let code = ToBytecode::new(&funs, &types).to_bytecode(&ast)?;
    Ok((code, funs, types))
}

fn run(src: &str) -> Result<Vec<Value>, Error> {
    let (code, funs, types) = prepare(src)?;
    let mut vm = VM::new(funs, types);
    match vm.run(&code, 1_000_000)? {
        Step::Finished => Ok(vm.value_stack),
        other => panic!("machine did not finish: {:?}", other),
    }
}

fn number(n: i64) -> Value {
    Value::Number(Num::from_int(n))
}

fn string(s: &str) -> Value {
    Value::String(s.to_string())
}

#[test]
fn addition_leaves_three() {
    let stack = run("(+ 1 2)").unwrap();
    assert_eq!(stack.last(), Some(&number(3)));
}

#[test]
fn let_binds_names() {
    let stack = run("(let ((x 10) (y 5)) (- x y))").unwrap();
    assert_eq!(stack.last(), Some(&number(5)));
}

#[test]
fn if_picks_the_true_branch() {
    let stack = run("(if (= 0 0) \"yes\" \"no\")").unwrap();
    assert_eq!(stack.last(), Some(&string("yes")));
}

#[test]
fn car_and_cdr_of_a_list() {
    let stack = run("(car (list 1 2 3))").unwrap();
    assert_eq!(stack.last(), Some(&number(1)));
    let stack = run("(cdr (list 1 2 3))").unwrap();
    assert_eq!(stack.last(), Some(&Value::List(vec![number(2), number(3)])));
}

#[test]
fn append_joins_in_pushed_order() {
    let stack = run("(append \"foo\" \"bar\")").unwrap();
    assert_eq!(stack.last(), Some(&string("foobar")));
}

#[test]
fn defined_function_is_called() {
    let stack = run("(&define inc (n) (+ n 1)) (inc 41)").unwrap();
    assert_eq!(stack.last(), Some(&number(42)));
    let e = run("(&define inc (n) (+ n 1)) (inc)").unwrap_err();
    assert_eq!(e.kind, ErrorKind::Arity);
    let e = run("(&define inc (n) (+ n 1)) (inc 1 2)").unwrap_err();
    assert_eq!(e.kind, ErrorKind::Arity);
}

#[test]
fn typed_parameter_through_alias() {
    let stack = run("(&type :int Meters) (&define walk (d Meters) d) (walk 3)").unwrap();
    assert_eq!(stack.last(), Some(&number(3)));
    let e = run("(&type A B) (&type B A)").unwrap_err();
    assert_eq!(e.kind, ErrorKind::TypeAlias);
}

#[test]
fn missing_close_paren_is_reported_at_the_open_paren() {
    let e = parse("(+ 1 2").unwrap_err();
    assert_eq!(e.kind, ErrorKind::Syntax);
    let outer = e.context.last().unwrap();
    assert!(outer.starts_with("expression"), "{}", outer);
    assert!(outer.contains("1:1"), "{}", outer);
}

#[test]
fn nested_missing_paren_names_the_outer_open_paren() {
    let e = parse("\n  (a (b c)").unwrap_err();
    assert_eq!(e.kind, ErrorKind::Syntax);
    let outer = e.context.last().unwrap();
    assert!(outer.contains("2:3"), "{}", outer);
}
