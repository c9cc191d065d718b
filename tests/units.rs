use rasp::ast::AST;
use rasp::bytecode::ToBytecode;
use rasp::compiler::Compiler;
use rasp::error::{Error, ErrorKind};
use rasp::gatherer::{is_builtin, IncludeGatherer};
use rasp::internal::{FunTable, Type, TypeTable};
use rasp::lexer::{tokenize, Lexer, Token};
use rasp::num::Num;
use rasp::parser::Parser;
use rasp::preprocessor::{Included, Preprocessor};
use rasp::value::{value_to_string, Value};
use rasp::vm::{mode_flags, read_result, Access, HostCall, Step, VM};

fn parse(src: &str) -> Result<Vec<AST>, Error> {
    let mut parser = Parser::new(Lexer::new(src));
    parser.parse()
}

fn start(src: &str) -> Result<(VM, Step), Error> {
    let mut ast = parse(src)?;
    let mut funs = FunTable::new(Vec::new());
    let mut types = TypeTable::new(Vec::new());
    Preprocessor::new("unit.rasp").preprocess(&mut ast, &mut funs, &mut types, Vec::new())?;
    let code = ToBytecode::new(&funs, &types).to_bytecode(&ast)?;
    let mut vm = VM::new(funs, types);
    let step = vm.run(&code, 1_000_000)?;
    Ok((vm, step))
}

fn top(src: &str) -> Value {
    let (vm, step) = start(src).unwrap();
    assert!(matches!(step, Step::Finished));
    vm.value_stack.last().unwrap().clone()
}

fn num(n: i64, d: i64) -> Value {
    Value::Number(Num::new(n, d).unwrap())
}

#[test]
fn fractions_are_exact_and_in_lowest_terms() {
    assert_eq!(Num::new(6, 4), Some(Num { num: 3, den: 2 }));
    assert_eq!(Num::new(-6, 4), Some(Num { num: -3, den: 2 }));
    assert_eq!(Num::new(1, 0), None);
    assert_eq!(top("(/ 1 2)"), num(1, 2));
    assert_eq!(top("(* 2.5 4)"), num(10, 1));
    assert_eq!(top("(- 0.1 0.3)"), num(-1, 5));
    assert_eq!(top("(+ 1.25 0.75)"), num(2, 1));
}

#[test]
fn number_text() {
    assert_eq!(Num::from_int(-42).text(), "-42");
    assert_eq!(Num::new(7, 2).unwrap().text(), "3.5");
    assert_eq!(Num::new(-1, 8).unwrap().text(), "-0.125");
    assert_eq!(Num::new(3, 100).unwrap().text(), "0.03");
    assert_eq!(Num::new(1, 3).unwrap().text(), "1/3");
    assert_eq!(Num::from_int(0).text(), "0");
    assert_eq!(top("(string (/ 10 4))"), Value::String("2.5".to_string()));
    assert_eq!(top("(string 2.5)"), Value::String("2.5".to_string()));
}

#[test]
fn arithmetic_errors() {
    assert_eq!(start("(/ 1 0)").unwrap_err().kind, ErrorKind::Arithmetic);
    assert_eq!(start("(+ 9223372036854775807 1)").unwrap_err().kind, ErrorKind::Arithmetic);
    assert_eq!(start("(+ 1 \"a\")").unwrap_err().kind, ErrorKind::WrongType);
}

#[test]
fn lexer_reads_numbers_strings_and_escapes() {
    let tokens = tokenize("3.25 \"a\\tb\\n\" (x)");
    assert!(matches!(&tokens[0], Token::Number(_, n) if *n == Num { num: 13, den: 4 }));
    assert!(matches!(&tokens[1], Token::StringLit(_, s) if s == "a\tb\n"));
    assert!(matches!(&tokens[2], Token::Lparen(_)));
    let tokens = tokenize("\"bad \\q\" 12a 99999999999999999999");
    assert!(matches!(&tokens[0], Token::Error(_, _)));
    assert!(tokens.iter().filter(|t| matches!(t, Token::Error(_, _))).count() >= 2);
}

#[test]
fn token_ranges_track_lines() {
    let tokens = tokenize("a\n  bc");
    let r = tokens[1].range();
    assert_eq!(r.text(), "2:2-2:4");
    assert_eq!(tokens[0].range().text(), "1:0-1:1");
    let tokens = tokenize("  (");
    assert_eq!(tokens[0].range().text(), "1:3");
}

#[test]
fn string_intrinsics() {
    assert_eq!(top("(car \"hello\")"), Value::String("h".to_string()));
    assert_eq!(top("(cdr \"hello\")"), Value::String("ello".to_string()));
    assert_eq!(top("(cdr \"\")"), Value::String(String::new()));
    assert_eq!(top("(car \"\")"), Value::String(String::new()));
    assert_eq!(top("(nil? \"\")"), Value::Boolean(true));
    assert_eq!(top("(nil? (list 1))"), Value::Boolean(false));
    assert_eq!(top("(car ())"), Value::List(Vec::new()));
    assert_eq!(top("(string (list \"a\" 1 (list \"b\")))"), Value::String("a1b".to_string()));
    assert_eq!(top("(append (list 1) (list 2 3))"), Value::List(vec![num(1, 1), num(2, 1), num(3, 1)]));
}

#[test]
fn intrinsic_type_errors() {
    assert_eq!(start("(append \"a\" (list 1))").unwrap_err().kind, ErrorKind::WrongType);
    assert_eq!(start("(nil? 3)").unwrap_err().kind, ErrorKind::WrongType);
    assert_eq!(start("(car 3)").unwrap_err().kind, ErrorKind::WrongType);
}

#[test]
fn compile_errors() {
    assert_eq!(start("(nothing 1)").unwrap_err().kind, ErrorKind::UnknownFunction);
    assert_eq!(start("((a) 1)").unwrap_err().kind, ErrorKind::Compile);
    assert_eq!(start("(1 2)").unwrap_err().kind, ErrorKind::Compile);
    assert_eq!(start("(if 1 2)").unwrap_err().kind, ErrorKind::Compile);
    assert_eq!(start("(let (x) x)").unwrap_err().kind, ErrorKind::Compile);
}

#[test]
fn runtime_errors() {
    assert_eq!(start("(+ 1 y)").unwrap_err().kind, ErrorKind::UnknownVariable);
    assert_eq!(start("(if (list) 1 2)").map(|(vm, _)| vm.value_stack.len()).unwrap(), 1);
}

#[test]
fn directive_errors() {
    assert_eq!(start("(&type a)").unwrap_err().kind, ErrorKind::Directive);
    assert_eq!(start("(&define f)").unwrap_err().kind, ErrorKind::Directive);
    assert_eq!(start("(&extern g (1))").unwrap_err().kind, ErrorKind::Directive);
    assert_eq!(start("(&include 5)").map(|_| ()).is_ok(), true);
    let ast = parse("(&include \"a.rasp\" \"b.rasp\") (&include 5)").unwrap();
    assert_eq!(IncludeGatherer::new().gather(&ast).unwrap_err().kind, ErrorKind::Directive);
    let ast = parse("(&include \"a.rasp\" \"b.rasp\") (x)").unwrap();
    assert_eq!(IncludeGatherer::new().gather(&ast).unwrap(), vec!["a.rasp".to_string(), "b.rasp".to_string()]);
    assert!(is_builtin("&extern"));
    assert!(!is_builtin("define"));
}

#[test]
fn included_files_are_merged() {
    let mut inc_ast = parse("(&define twice (x) (* x 2))").unwrap();
    let mut inc_funs = FunTable::new(Vec::new());
    let mut inc_types = TypeTable::new(Vec::new());
    Preprocessor::new("lib.rasp").preprocess(&mut inc_ast, &mut inc_funs, &mut inc_types, Vec::new()).unwrap();
    let mut ast = parse("(&include \"lib.rasp\") (twice 21)").unwrap();
    let mut funs = FunTable::new(Vec::new());
    let mut types = TypeTable::new(Vec::new());
    let included = vec![Included { ast: inc_ast, fun_table: inc_funs, type_table: inc_types }];
    Preprocessor::new("main.rasp").preprocess(&mut ast, &mut funs, &mut types, included).unwrap();
    assert!(funs.has_fun("twice"));
    let code = ToBytecode::new(&funs, &types).to_bytecode(&ast).unwrap();
    let mut vm = VM::new(funs, types);
    assert!(matches!(vm.run(&code, 1000).unwrap(), Step::Finished));
    assert_eq!(vm.value_stack.last(), Some(&num(42, 1)));
}

#[test]
fn later_definition_wins() {
    assert_eq!(top("(&define f () 1) (&define f () 2) (f)"), num(2, 1));
}

#[test]
fn external_function_is_declared() {
    let mut ast = parse("(&extern put (x y) \"writes\")").unwrap();
    let mut funs = FunTable::new(Vec::new());
    let mut types = TypeTable::new(Vec::new());
    Preprocessor::new("e.rasp").preprocess(&mut ast, &mut funs, &mut types, Vec::new()).unwrap();
    let f = funs.get_fun("put").unwrap();
    assert!(f.is_external);
    assert_eq!(f.params.len(), 2);
    assert_eq!(f.docstring, "writes");
}

#[test]
fn recursion_runs() {
    let src = "(&define count (n) (if (= n 0) 0 (+ 1 (count (- n 1))))) (count 50)";
    assert_eq!(top(src), num(50, 1));
}

#[test]
fn file_intrinsics_go_to_the_host() {
    let (mut vm, step) = start("(stdopen \"out.txt\" \"w+\")").unwrap();
    match step {
        Step::Host(HostCall::Open { path, flags }) => {
            assert_eq!(path, "out.txt");
            assert_eq!(flags.access, Access::ReadWrite);
            assert!(flags.create && flags.truncate && !flags.append);
        },
        other => panic!("{:?}", other),
    }
    vm.push(rasp::vm::host_number(3));
    assert!(matches!(vm.resume(100).unwrap(), Step::Finished));
    assert_eq!(vm.value_stack.last(), Some(&num(3, 1)));
    assert_eq!(start("(stdclose 1.5)").unwrap_err().kind, ErrorKind::WrongType);
    assert_eq!(start("(stdwrite (- 0 1) \"x\")").unwrap_err().kind, ErrorKind::WrongType);
    assert_eq!(start("(stdopen \"f\" \"q\")").unwrap_err().kind, ErrorKind::WrongType);
    assert!(matches!(start("(stdread 0 4)").unwrap().1, Step::Host(HostCall::Read { fd: 0, count: 4 })));
}

#[test]
fn mode_table() {
    assert_eq!(mode_flags("rb").unwrap().access, Access::ReadOnly);
    assert!(mode_flags("r+b").unwrap().append);
    assert!(mode_flags("ab").unwrap().append);
    assert_eq!(mode_flags("x"), None);
}

#[test]
fn read_result_shape() {
    let v = read_result(2, &vec![104, 105]);
    assert_eq!(v, Value::List(vec![num(2, 1), Value::List(vec![num(104, 1), num(105, 1)])]));
    assert_eq!(value_to_string(&Value::Boolean(true)), "true");
}

#[test]
fn type_table_lookup() {
    let mut t = TypeTable::new(vec![Type::Number, Type::Str, Type::Listy]);
    t.add_typedef("Meters", ":int");
    assert_eq!(t.get_type("Meters").unwrap().name(), ":int");
    assert!(t.has_type(":listy"));
    assert!(!t.has_type(":any"));
    let other = TypeTable::new(vec![Type::TypeDef("Meters".to_string(), ":string".to_string())]);
    assert_eq!(t.merge(other).unwrap_err().kind, ErrorKind::TypeAlias);
}

#[test]
fn comments_are_skipped_inside_expressions() {
    let trees = parse("; head\n(a ; inner\n b)").unwrap();
    assert_eq!(trees.len(), 1);
    match &trees[0] {
        AST::Expr(_, kids) => assert_eq!(kids.len(), 2),
        _ => panic!("expected an expression"),
    }
}

#[test]
fn compiler_prunes_directives() {
    let ast = parse("(&define f () 1) (f) (&type :int K)").unwrap();
    let mut c = Compiler::new("c.rasp", ast);
    c.compile(Vec::new()).unwrap();
    assert_eq!(c.ast.len(), 1);
    assert!(c.fun_table.has_fun("f"));
    assert!(c.type_table.has_type("K"));
}

#[test]
fn lexer_positions_after_errors() {
    let mut lx = Lexer::new("(a \u{1} \"b");
    assert!(matches!(lx.next_token(), Token::Lparen(_)));
    assert!(matches!(lx.next_token(), Token::Identifier(_, s) if s == "a"));
    match lx.next_token() {
        Token::Unknown(r, c) => {
            assert_eq!(c, '\u{1}');
            assert_eq!(r.end.src_index, 3);
        },
        other => panic!("{:?}", other),
    }
    assert!(matches!(lx.next_token(), Token::Error(_, _)));
    assert!(matches!(lx.next_token(), Token::Eof(_)));
    assert!(matches!(lx.next_token(), Token::Eof(_)));
}

#[test]
fn parameter_types_are_recorded() {
    let mut ast = parse("(&type :int Meters) (&define walk (d Meters e) d)").unwrap();
    let mut funs = FunTable::new(Vec::new());
    let mut types = TypeTable::new(Vec::new());
    Preprocessor::new("p.rasp").preprocess(&mut ast, &mut funs, &mut types, Vec::new()).unwrap();
    let f = funs.get_fun("walk").unwrap();
    assert_eq!(f.params.len(), 2);
    assert_eq!(f.params[0].param_type.name(), ":int");
    assert_eq!(f.params[1].param_type.name(), ":any");
    assert!(!f.params[0].varargs && !f.params[1].varargs);
    assert_eq!(f.source_file, "p.rasp");
}
