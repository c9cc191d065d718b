use rasp::ast::AST;
use rasp::bytecode::{Bytecode, ToBytecode};
use rasp::error::{Error, ErrorKind};
use rasp::internal::{FunTable, TypeTable};
use rasp::lexer::{tokenize, Lexer, Token};
use rasp::num::Num;
use rasp::parser::Parser;
use rasp::preprocessor::Preprocessor;
use rasp::value::Value;
use rasp::vm::{Step, VM};

fn parse(src: &str) -> Result<Vec<AST>, Error> {
    let mut parser = Parser::new(Lexer::new(src));
    parser.parse()
}

fn compile(src: &str) -> Result<(Vec<Bytecode>, FunTable, TypeTable), Error> {
    let mut ast = parse(src)?;
    let mut funs = FunTable::new(Vec::new());
    let mut types = TypeTable::new(Vec::new());
    Preprocessor::new("law.rasp").preprocess(&mut ast, &mut funs, &mut types, Vec::new())?;
    let code = ToBytecode::new(&funs, &types).to_bytecode(&ast)?;
    Ok((code, funs, types))
}

fn run(src: &str) -> Result<VM, Error> {
    let (code, funs, types) = compile(src)?;
    let mut vm = VM::new(funs, types);
    match vm.run(&code, 1_000_000)? {
        Step::Finished => Ok(vm),
        other => panic!("machine did not finish: {:?}", other),
    }
}

fn same_tree(a: &AST, b: &AST) -> bool {
    match (a, b) {
        (AST::Expr(_, x), AST::Expr(_, y)) => x.len() == y.len() && x.iter().zip(y.iter()).all(|(p, q)| same_tree(p, q)),
        (AST::StringLit(_, x), AST::StringLit(_, y)) => x == y,
        (AST::Identifier(_, x), AST::Identifier(_, y)) => x == y,
        (AST::Number(_, x), AST::Number(_, y)) => x == y,
        _ => false,
    }
}

#[test]
fn token_stream_ends_with_one_eof() {
    let tokens = tokenize("(a \"b\" 12 ; note\n) ?x");
    assert!(matches!(tokens.last(), Some(Token::Eof(_))));
    assert_eq!(tokens.iter().filter(|t| matches!(t, Token::Eof(_))).count(), 1);
    assert_eq!(tokens.len(), 8);
    assert!(matches!(&tokens[1], Token::Identifier(_, s) if s == "a"));
    assert!(matches!(&tokens[2], Token::StringLit(_, s) if s == "b"));
    assert!(matches!(&tokens[4], Token::Comment(_, s) if s == " note"));
    assert!(matches!(&tokens[6], Token::Identifier(_, s) if s == "?x"));
}

#[test]
fn malformed_text_still_ends() {
    let tokens = tokenize("\"open string");
    assert!(matches!(&tokens[0], Token::Error(_, _)));
    assert!(matches!(tokens.last(), Some(Token::Eof(_))));
    let tokens = tokenize("1.2.3 \u{e9}");
    assert!(matches!(&tokens[0], Token::Error(_, _)));
    assert!(tokens.iter().any(|t| matches!(t, Token::Unknown(_, '\u{e9}'))));
    assert!(matches!(tokens.last(), Some(Token::Eof(_))));
}

#[test]
fn eof_repeats_at_the_end() {
    let mut lexer = Lexer::new("x");
    assert!(matches!(lexer.next_token(), Token::Identifier(_, _)));
    assert!(matches!(lexer.next_token(), Token::Eof(_)));
    assert!(matches!(lexer.next_token(), Token::Eof(_)));
}

#[test]
fn printed_tree_parses_back() {
    let trees = parse("(define (f x) \"str\" 12 2.5 0.125 (g (h)) ()) top 7").unwrap();
    for t in &trees {
        let text = t.display();
        let again = parse(&text).unwrap();
        assert_eq!(again.len(), 1);
        assert!(same_tree(t, &again[0]), "{}", text);
    }
}

#[test]
fn preprocessing_twice_changes_nothing() {
    let mut ast = parse("(&type :int N) (&define f (a N) a) (f 1) (&extern g (x)) 5").unwrap();
    let mut funs = FunTable::new(Vec::new());
    let mut types = TypeTable::new(Vec::new());
    let p = Preprocessor::new("twice.rasp");
    p.preprocess(&mut ast, &mut funs, &mut types, Vec::new()).unwrap();
    let printed: Vec<String> = ast.iter().map(|t| t.display()).collect();
    let n_funs = funs.funs.len();
    let n_types = types.types.len();
    assert_eq!(ast.len(), 2);
    p.preprocess(&mut ast, &mut funs, &mut types, Vec::new()).unwrap();
    let again: Vec<String> = ast.iter().map(|t| t.display()).collect();
    assert_eq!(printed, again);
    assert_eq!(funs.funs.len(), n_funs);
    assert_eq!(types.types.len(), n_types);
}

#[test]
fn aliases_resolve_in_any_order() {
    let (_, _, types) = compile("(&type B C) (&type A B) (&type :string A)").unwrap();
    assert_eq!(types.get_type("C").unwrap().name(), ":string");
    assert_eq!(types.get_type("A").unwrap().name(), ":string");
}

#[test]
fn alias_cycle_and_dangling_alias_are_errors() {
    assert_eq!(compile("(&type X Y) (&type Y X)").unwrap_err().kind, ErrorKind::TypeAlias);
    assert_eq!(compile("(&type Nowhere Z)").unwrap_err().kind, ErrorKind::TypeAlias);
    assert_eq!(compile("(&type :int Q) (&type :string Q)").unwrap_err().kind, ErrorKind::TypeAlias);
}

#[test]
fn arity_follows_required_and_optional_parameters() {
    let def = "(&define f (a b ? c d) a) ";
    for (args, ok) in [("", false), ("1", false), ("1 2", true), ("1 2 3", true), ("1 2 3 4", true), ("1 2 3 4 5", false)] {
        let src = format!("{}(f {})", def, args);
        let r = compile(&src);
        assert_eq!(r.is_ok(), ok, "{}", src);
        if !ok {
            assert_eq!(r.unwrap_err().kind, ErrorKind::Arity);
        }
    }
}

#[test]
fn second_optional_marker_is_an_error() {
    assert_eq!(compile("(&define f (a ? b ? c) a)").unwrap_err().kind, ErrorKind::Directive);
}

#[test]
fn scopes_are_closed_on_every_path() {
    let src = "(let ((x 1)) (if x (let ((y 2)) y) (let ((z 3)) z)))";
    let (code, _, _) = compile(src).unwrap();
    let opens = code.iter().filter(|b| matches!(b, Bytecode::NewVarStack)).count();
    let closes = code.iter().filter(|b| matches!(b, Bytecode::PopVarStack)).count();
    assert_eq!(opens, 3);
    assert_eq!(opens, closes);
    let vm = run(src).unwrap();
    assert_eq!(vm.var_stack.len(), 0);
    assert_eq!(vm.value_stack.last(), Some(&Value::Number(Num::from_int(2))));
    let vm = run("(let ((x 0)) (if x (let ((y 2)) y) (let ((z 3)) z)))").unwrap();
    assert_eq!(vm.var_stack.len(), 0);
    assert_eq!(vm.value_stack.last(), Some(&Value::Number(Num::from_int(3))));
}

#[test]
fn if_runs_one_branch_and_then_what_follows() {
    let vm = run("(if 1 \"a\" \"b\") (+ 1 2)").unwrap();
    assert_eq!(vm.value_stack, vec![Value::String("a".to_string()), Value::Number(Num::from_int(3))]);
    let vm = run("(if \"\" \"a\" \"b\") (+ 1 2)").unwrap();
    assert_eq!(vm.value_stack, vec![Value::String("b".to_string()), Value::Number(Num::from_int(3))]);
    let (code, _, _) = compile("(if 1 \"a\" (+ 2 3))").unwrap();
    assert_eq!(code.len(), 1 + 1 + 1 + 1 + 3);
    assert!(matches!(code[1], Bytecode::SkipFalse(2)));
    assert!(matches!(code[3], Bytecode::Skip(3)));
}

#[test]
fn equality_is_reflexive_and_symmetric() {
    let vm = run("(= (list 1 \"a\" (list 2)) (list 1 \"a\" (list 2)))").unwrap();
    assert_eq!(vm.value_stack.last(), Some(&Value::Boolean(true)));
    let a = run("(= 1 \"1\")").unwrap();
    let b = run("(= \"1\" 1)").unwrap();
    assert_eq!(a.value_stack, b.value_stack);
    assert_eq!(a.value_stack.last(), Some(&Value::Boolean(false)));
    let c = run("(= 0.5 (/ 1 2))").unwrap();
    assert_eq!(c.value_stack.last(), Some(&Value::Boolean(true)));
}

#[test]
fn a_new_name_already_bound_is_dropped_unchecked() {
    let (_, _, types) = compile("(&type X N) (&type :int N)").unwrap();
    assert_eq!(types.get_type("N").unwrap().name(), ":int");
    assert!(types.get_type("X").is_none());
}

#[test]
fn second_preprocessing_succeeds_and_keeps_tables() {
    let mut ast = parse("(&type :string S) (&define g (a S) a) (g \"x\")").unwrap();
    let mut funs = FunTable::new(Vec::new());
    let mut types = TypeTable::new(Vec::new());
    let p = Preprocessor::new("again.rasp");
    p.preprocess(&mut ast, &mut funs, &mut types, Vec::new()).unwrap();
    let n_types = types.types.len();
    p.preprocess(&mut ast, &mut funs, &mut types, Vec::new()).unwrap();
    assert_eq!(types.types.len(), n_types);
    assert_eq!(types.get_type("S").unwrap().name(), ":string");
}
