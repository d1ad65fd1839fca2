use std::collections::HashMap;

use tinylisp::builtins::{builtin_ffi, builtin_fmt, ffi_decl_fault, install_builtins, values_equal};
use tinylisp::context::{Context, RuntimeContext};
use tinylisp::eval::{call_ffi_function, check_ffi_call, eval_str};
use tinylisp::ffi::CType;
use tinylisp::host::{ArithOp, Fault, FloatOp, ForeignArg, Outcome, Reply, Request, Transcript};
use tinylisp::value::{Builtin, Value};

/// A host for tests: output is collected, files come from a map, floats are
/// computed with `f64`, and foreign calls are answered by a small table.
struct TestHost {
    out: String,
    err: String,
    files: HashMap<String, String>,
    asked: usize,
}

impl TestHost {
    fn new() -> TestHost {
        TestHost { out: String::new(), err: String::new(), files: HashMap::new(), asked: 0 }
    }

    fn perform(&mut self, req: &Request) -> Reply {
        self.asked += 1;
        match req {
            Request::Print(s) => {
                self.out.push_str(s);
                Reply::Unit
            }
            Request::PrintLine(s) => {
                self.out.push_str(s);
                self.out.push('\n');
                Reply::Unit
            }
            Request::ErrorLine(s) => {
                self.err.push_str(s);
                self.err.push('\n');
                Reply::Unit
            }
            Request::ReadFile(p) => match self.files.get(p) {
                Some(c) => Reply::Text(c.clone()),
                None => Reply::Missing,
            },
            Request::ParseFloat(t) => match t.parse::<f64>() {
                Ok(f) => Reply::Bits(f.to_bits()),
                Err(_) => Reply::Missing,
            },
            Request::FloatArith(op, a, b) => {
                let (a, b) = (f64::from_bits(*a), f64::from_bits(*b));
                let r = match op {
                    FloatOp::Add => a + b,
                    FloatOp::Sub => a - b,
                    FloatOp::Mul => a * b,
                    FloatOp::Div => a / b,
                };
                Reply::Bits(r.to_bits())
            }
            Request::IntQuotient(a, b) => Reply::Bits((*a as f64 / *b as f64).to_bits()),
            Request::FloatGreater(a, b) => Reply::Flag(f64::from_bits(*a) > f64::from_bits(*b)),
            Request::FloatEqual(a, b) => Reply::Flag(f64::from_bits(*a) == f64::from_bits(*b)),
            Request::FloatText(a) => Reply::Text(f64::from_bits(*a).to_string()),
            Request::OpenForeign(_, _) => Reply::Unit,
            Request::CallForeign(c) => match (c.symbol.as_str(), c.args.as_slice()) {
                ("twice", [ForeignArg::Int(i)]) => Reply::Int(2 * i),
                ("half", [ForeignArg::Double(b)]) => Reply::Bits((f64::from_bits(*b) / 2.0).to_bits()),
                ("greet", [ForeignArg::Str(s)]) => Reply::Text(format!("hello {}", s)),
                _ => Reply::Missing,
            },
        }
    }
}

fn global() -> Context {
    let mut ctx = Context::new();
    install_builtins(&mut ctx);
    ctx
}

fn snapshot(ctx: &Context) -> Context {
    Context { scopes: ctx.scopes.clone(), depth: ctx.depth }
}

fn program() -> RuntimeContext {
    RuntimeContext { in_repl: false, in_include: false, argv: vec!["prog.lisp".to_string()] }
}

/// Runs a source text to the end, answering the interpreter's requests.
fn run_in(src: &str, ctx: &mut Context, rt: &RuntimeContext, host: &mut TestHost) -> Result<Value, Fault> {
    let mut replies: Vec<Reply> = Vec::new();
    loop {
        let mut c = snapshot(ctx);
        let mut t = Transcript::new(replies.clone());
        match eval_str(src, &mut c, rt, &mut t, u64::MAX) {
            Outcome::Done(v) => {
                *ctx = c;
                return Ok(v);
            }
            Outcome::Fail(f) => return Err(f),
            Outcome::Need(req) => {
                assert_eq!(t.cursor(), replies.len());
                let r = host.perform(&req);
                replies.push(r);
            }
        }
    }
}

fn run(src: &str) -> Result<Value, Fault> {
    let mut ctx = global();
    let mut host = TestHost::new();
    run_in(src, &mut ctx, &program(), &mut host)
}

fn run_output(src: &str) -> (Result<Value, Fault>, String, String) {
    let mut ctx = global();
    let mut host = TestHost::new();
    let r = run_in(src, &mut ctx, &program(), &mut host);
    (r, host.out, host.err)
}

fn s(x: &str) -> Value {
    Value::Str(x.to_string())
}

fn float(x: f64) -> Value {
    Value::Float(x.to_bits())
}

#[test]
fn adds_integers() {
    assert_eq!(run("(+ 1 2)").unwrap(), Value::Int(3));
    assert_eq!(run("(* 6 7)").unwrap(), Value::Int(42));
    assert_eq!(run("(- 10 3)").unwrap(), Value::Int(7));
}

#[test]
fn integer_overflow_is_an_error() {
    match run("(* 9223372036854775807 2)") {
        Err(Fault::Overflow(ArithOp::Mul)) => {}
        other => panic!("unexpected {:?}", other),
    }
    match run("(+ 9223372036854775807 1)") {
        Err(Fault::Overflow(ArithOp::Add)) => {}
        other => panic!("unexpected {:?}", other),
    }
}

#[test]
fn integer_literal_out_of_range() {
    match run("99999999999999999999") {
        Err(Fault::IntLiteral(t)) => assert_eq!(t, "99999999999999999999"),
        other => panic!("unexpected {:?}", other),
    }
}

#[test]
fn concatenates_strings() {
    assert_eq!(run("(+ \"ab\" \"cd\")").unwrap(), s("abcd"));
}

#[test]
fn subtracting_strings_is_a_type_error() {
    assert!(matches!(run("(- \"ab\" \"cd\")"), Err(Fault::TypeError)));
}

#[test]
fn float_arithmetic_goes_through_the_host() {
    assert_eq!(run("(+ 1.5 2.25)").unwrap(), float(3.75));
    assert_eq!(run("(/ 7 2)").unwrap(), float(3.5));
    assert_eq!(run("(/ 1.0 4.0)").unwrap(), float(0.25));
}

#[test]
fn bad_float_literal() {
    match run("1.2.3") {
        Err(Fault::FloatLiteral(t)) => assert_eq!(t, "1.2.3"),
        other => panic!("unexpected {:?}", other),
    }
}

#[test]
fn compares() {
    assert_eq!(run("(> 3 2)").unwrap(), Value::Bool(true));
    assert_eq!(run("(> 2 3)").unwrap(), Value::Bool(false));
    assert_eq!(run("(> 2.5 1.5)").unwrap(), Value::Bool(true));
    match run("(> 1 \"a\")") {
        Err(Fault::InvalidComparison(a, b)) => {
            assert_eq!(a, Value::Int(1));
            assert_eq!(b, s("a"));
        }
        other => panic!("unexpected {:?}", other),
    }
}

#[test]
fn equality() {
    assert_eq!(run("(= 1 1)").unwrap(), Value::Bool(true));
    assert_eq!(run("(= 1 2)").unwrap(), Value::Bool(false));
    assert_eq!(run("(= 1.0 1.0)").unwrap(), Value::Bool(true));
    assert_eq!(run("(= \"a\" \"a\")").unwrap(), Value::Bool(true));
    assert_eq!(run("(= '(1 2) '(1 2))").unwrap(), Value::Bool(true));
    assert_eq!(run("(= '(1 2) '(1 3))").unwrap(), Value::Bool(false));
    assert_eq!(run("(= 1 \"1\")").unwrap(), Value::Bool(false));
    assert_eq!(run("(= (dict \"a\" 1 \"b\" 2) (dict \"b\" 2 \"a\" 1))").unwrap(), Value::Bool(true));
}

#[test]
fn equality_of_floats_asks_the_host() {
    let mut t = Transcript::new(Vec::new());
    let a = float(0.5);
    match values_equal(&a, &a, &mut t) {
        Outcome::Need(Request::FloatEqual(x, y)) => {
            assert_eq!(x, 0.5f64.to_bits());
            assert_eq!(y, 0.5f64.to_bits());
        }
        other => panic!("unexpected {:?}", other),
    }
    let mut t = Transcript::new(vec![Reply::Flag(false)]);
    assert!(matches!(values_equal(&a, &a, &mut t), Outcome::Done(false)));
    assert_eq!(t.cursor(), 1);
}

#[test]
fn logic() {
    assert_eq!(run("(and true 1)").unwrap(), Value::Bool(true));
    assert_eq!(run("(and true 0)").unwrap(), Value::Bool(false));
    assert_eq!(run("(or false '())").unwrap(), Value::Bool(false));
    assert_eq!(run("(or false '(1))").unwrap(), Value::Bool(true));
    assert_eq!(run("(not \"x\")").unwrap(), Value::Bool(true));
    // `and` stops at a false first operand before looking for a second one
    assert_eq!(run("(and false)").unwrap(), Value::Bool(false));
    assert!(matches!(run("(and true)"), Err(Fault::IndexOutOfBounds(1, 1))));
}

#[test]
fn missing_operands() {
    assert!(matches!(run("(+)"), Err(Fault::IndexOutOfBounds(0, 0))));
    assert!(matches!(run("(+ 1)"), Err(Fault::IndexOutOfBounds(1, 1))));
    // `-` always stands alone as an atom, so `-5` is a call of `-` on 5
    assert!(matches!(run("-5"), Err(Fault::IndexOutOfBounds(1, 1))));
}

#[test]
fn length_counts_bytes() {
    assert_eq!(run("(len \"héllo\")").unwrap(), Value::Int(6));
    assert_eq!(run("(len '(1 2 3))").unwrap(), Value::Int(3));
    assert!(matches!(run("(len 3)"), Err(Fault::TypeError)));
}

#[test]
fn peeks() {
    assert_eq!(run("(@ '(10 20 30) 1)").unwrap(), Value::Int(20));
    assert_eq!(run("(@ \"abc\" 2)").unwrap(), s("c"));
    assert_eq!(run("(@ (dict \"k\" 5) \"k\")").unwrap(), Value::Int(5));
    assert!(matches!(run("(@ '(10 20) 2)"), Err(Fault::IndexOutOfBounds(2, 2))));
    assert!(matches!(run("(@ \"abc\" 3)"), Err(Fault::UnwrapNone)));
    assert!(matches!(run("(@ (dict \"k\" 5) \"j\")"), Err(Fault::UnwrapNone)));
    assert!(matches!(run("(@ 1 1)"), Err(Fault::TypeError)));
}

#[test]
fn builds_dictionaries() {
    let d = run("(dict \"a\" 1 \"b\" 2 \"a\" 3)").unwrap();
    assert_eq!(d, Value::Dict(vec![("a".to_string(), Value::Int(3)), ("b".to_string(), Value::Int(2))]));
    assert!(matches!(run("(dict 1 2)"), Err(Fault::DictKeyNotString)));
    assert_eq!(run("(dict \"a\")").unwrap(), Value::Dict(vec![]));
}

#[test]
fn dictionary_lookup_gives_the_last_binding_of_a_key() {
    assert_eq!(run("(@ (dict \"a\" 1 \"b\" 2 \"a\" 3) \"a\")").unwrap(), Value::Int(3));
    assert_eq!(run("(@ (dict \"a\" 1 \"b\" 2 \"a\" 3) \"b\")").unwrap(), Value::Int(2));
}

#[test]
fn a_bound_name_reads_back_its_value() {
    let mut ctx = global();
    let mut host = TestHost::new();
    run_in("(setq answer (+ 40 2))", &mut ctx, &program(), &mut host).unwrap();
    assert_eq!(run_in("answer", &mut ctx, &program(), &mut host).unwrap(), Value::List(vec![Value::Int(42)]));
    assert_eq!(ctx.get("answer"), Some(Value::Int(42)));
}

#[test]
fn formats_values() {
    assert_eq!(run("(fmt 1 \" \" true \" \" -)").unwrap(), s("1 true <Builtin>"));
    assert_eq!(run("(fmt '(1 2 3))").unwrap(), s("(1 2 3)"));
    assert_eq!(run("(fmt 2.5)").unwrap(), s("2.5"));
    // a minus sign always stands alone, so "-7" reads as the builtin and 7
    assert_eq!(run("(fmt -7)").unwrap(), s("<Builtin>7"));
    assert_eq!(run("(fmt (- 0 7))").unwrap(), s("-7"));
    // a quote before an atom changes nothing: the atom is still looked up
    assert_eq!(run("(fmt 'x)").unwrap(), s("?x?"));
    assert_eq!(run("(fmt nothing)").unwrap(), s("?nothing?"));
    assert_eq!(run("(fmt .(1))").unwrap(), s("<Lambda>"));
}

#[test]
fn formats_dictionaries() {
    assert_eq!(run("(fmt (dict \"a\" 1))").unwrap(), s("a: 1"));
    // a separator follows an entry when its position plus one is below the
    // byte length of the entry's text
    assert_eq!(run("(fmt (dict \"a\" \"xyz\" \"b\" 1))").unwrap(), s("a: xyz, b: 1"));
}

#[test]
fn prints() {
    let (r, out, _) = run_output("(print \"hi\" 1)");
    assert_eq!(r.unwrap(), s("hi1"));
    assert_eq!(out, "hi1");
    let (r, out, _) = run_output("((println \"a\") (println \"b\"))");
    assert_eq!(r.unwrap(), Value::List(vec![s("a"), s("b")]));
    assert_eq!(out, "a\nb\n");
}

#[test]
fn binds_variables() {
    assert_eq!(run("((setq x 5) (+ x 1))").unwrap(), Value::List(vec![Value::Int(5), Value::Int(6)]));
    assert!(matches!(run("(setq 1 2)"), Err(Fault::SetqNameNotAtom)));
    assert!(matches!(run("(setq x)"), Err(Fault::IndexOutOfBounds(1, 1))));
}

#[test]
fn calls_lambdas() {
    let r = run("((setq inc .(+ (@ args 0) 1)) (inc 41))").unwrap();
    match r {
        Value::List(items) => {
            assert_eq!(items.len(), 2);
            assert_eq!(items[1], Value::Int(42));
        }
        other => panic!("unexpected {:?}", other),
    }
}

#[test]
fn lambda_scope_is_closed_after_the_call() {
    let mut ctx = global();
    let mut host = TestHost::new();
    run_in("((setq f .((setq y 1) y)) (f))", &mut ctx, &program(), &mut host).unwrap();
    assert_eq!(ctx.depth, 0);
    assert_eq!(ctx.scopes.len(), 1);
    assert!(ctx.get("y").is_none());
    assert!(ctx.get("f").is_some());
}

#[test]
fn ret_ends_a_block() {
    assert_eq!(run("((ret 1) (print \"never\"))").unwrap(), Value::Int(1));
    let (_, out, _) = run_output("((ret 1) (print \"never\"))");
    assert_eq!(out, "");
}

#[test]
fn conditionals() {
    assert_eq!(run("(ifel true 1 2)").unwrap(), Value::Int(1));
    assert_eq!(run("(ifel (> 1 2) 1 2)").unwrap(), Value::Int(2));
    assert!(matches!(run("(ifel 1 2 3)"), Err(Fault::ConditionNotBool)));
    assert!(matches!(run("(ifel false 1)"), Err(Fault::IndexOutOfBounds(2, 2))));
}

#[test]
fn unresolved_atoms_and_lists() {
    assert_eq!(run("(foo 1)").unwrap(), Value::List(vec![Value::UnresolvedAtom("foo".to_string()), Value::Int(1)]));
    assert_eq!(run("()").unwrap(), Value::List(vec![]));
    assert_eq!(run("'(a 1)").unwrap(), Value::List(vec![Value::List(vec![Value::Atom("a".to_string()), Value::Int(1)])]));
}

#[test]
fn includes_files() {
    let mut ctx = global();
    let mut host = TestHost::new();
    host.files.insert("lib.lisp".to_string(), "(setq z 9)".to_string());
    let r = run_in("((inc \"lib.lisp\") (+ z 1))", &mut ctx, &program(), &mut host).unwrap();
    assert_eq!(r, Value::List(vec![Value::Int(9), Value::Int(10)]));
    match run("(inc \"missing.lisp\")") {
        Err(Fault::IncludeUnreadable(n)) => assert_eq!(n, "missing.lisp"),
        other => panic!("unexpected {:?}", other),
    }
    assert!(matches!(run("(inc 1)"), Err(Fault::IncludeNameNotString)));
    assert!(matches!(run("((setq g .(inc \"x\")) (g))"), Err(Fault::IncludeNotGlobal)));
}

#[test]
fn include_sees_runtime_flags() {
    let mut ctx = global();
    let mut host = TestHost::new();
    host.files.insert("flags.lisp".to_string(), "(@ (runtime_ctx) \"in_include\")".to_string());
    let r = run_in("(inc \"flags.lisp\")", &mut ctx, &program(), &mut host).unwrap();
    assert_eq!(r, Value::Bool(true));
}

#[test]
fn runtime_context() {
    assert_eq!(run("(@ (runtime_ctx) \"in_repl\")").unwrap(), Value::Bool(false));
    assert_eq!(run("(@ (runtime_ctx) \"argv\")").unwrap(), Value::List(vec![s("prog.lisp")]));
}

#[test]
fn foreign_calls() {
    let decl = run("(ffi \"libdemo.so\" \"twice\" (Int) Int)").unwrap();
    assert_eq!(decl, Value::FFI("libdemo.so".to_string(), "twice".to_string(), vec![CType::Int], CType::Int));
    assert_eq!(run("((setq twice (ffi \"l\" \"twice\" (Int) Int)) (twice 21))").unwrap(),
        Value::List(vec![decl_of("twice", vec![CType::Int], CType::Int), Value::Int(42)]));
    assert_eq!(run("((setq half (ffi \"l\" \"half\" (Double) Double)) (half 3.0))").unwrap(),
        Value::List(vec![decl_of("half", vec![CType::Double], CType::Double), float(1.5)]));
    assert_eq!(run("((setq greet (ffi \"l\" \"greet\" (Str) Str)) (greet \"you\"))").unwrap(),
        Value::List(vec![decl_of("greet", vec![CType::Str], CType::Str), s("hello you")]));
}

fn decl_of(name: &str, types: Vec<CType>, ret: CType) -> Value {
    Value::FFI("l".to_string(), name.to_string(), types, ret)
}

#[test]
fn foreign_call_errors() {
    assert!(matches!(run("((setq f (ffi \"l\" \"twice\" (Int) Int)) (f \"x\"))"), Err(Fault::UnsupportedConversion(_, CType::Int))));
    assert!(matches!(run("((setq f (ffi \"l\" \"twice\" (Int) Int)) (f 1 2))"), Err(Fault::ArgumentCountMismatch)));
    assert!(matches!(run("((setq f (ffi \"l\" \"c\" () Char)) (f))"), Err(Fault::UnsupportedReturnType)));
    assert!(matches!(run("(ffi \"l\" \"f\" (Long) Int)"), Err(Fault::UnknownCType(_))));
    assert!(matches!(run("(ffi \"l\" \"f\" (1) Int)"), Err(Fault::UnpackNonAtom)));
    assert!(matches!(run("(ffi \"l\" \"f\" 1 Int)"), Err(Fault::FfiNeedsArgumentList)));
    assert!(matches!(run("(ffi 1 \"f\" () Int)"), Err(Fault::FfiNeedsFileName)));
    assert!(matches!(run("(ffi \"l\" 1 () Int)"), Err(Fault::FfiNeedsFunctionName)));
    assert!(matches!(run("(ffi \"l\" \"f\" () 1)"), Err(Fault::FfiNeedsReturnType)));
    assert!(matches!(run("(ffi \"l\" \"f\" ())"), Err(Fault::IndexOutOfBounds(3, 3))));
    assert!(matches!(run("(ffi \"l\")"), Err(Fault::IndexOutOfBounds(1, 2))));
}

#[test]
fn checks_foreign_arguments() {
    let types = vec![CType::Int, CType::Float, CType::Double, CType::Str];
    let values = vec![Value::Int(1), float(2.0), float(3.0), s("x")];
    assert!(check_ffi_call(&types, &values, CType::Int).is_none());
    let ok = call_ffi_function(&types, &values, CType::Int);
    assert_eq!(ok.len(), 4);
    assert!(matches!(ok[0], ForeignArg::Int(1)));
    assert!(matches!(ok[1], ForeignArg::Float(b) if b == 2.0f64.to_bits()));
    assert!(matches!(ok[2], ForeignArg::Double(b) if b == 3.0f64.to_bits()));
    assert!(matches!(&ok[3], ForeignArg::Str(t) if t == "x"));
    assert!(matches!(check_ffi_call(&vec![CType::Int], &vec![], CType::Int), Some(Fault::ArgumentCountMismatch)));
    assert!(matches!(check_ffi_call(&vec![], &vec![], CType::Char), Some(Fault::UnsupportedReturnType)));
    assert!(matches!(check_ffi_call(&vec![CType::Int], &vec![s("1")], CType::Int), Some(Fault::UnsupportedConversion(_, CType::Int))));
    // the arguments are checked in order, before the return type
    assert!(matches!(check_ffi_call(&vec![CType::Str, CType::Int], &vec![s("a\0b"), s("c")], CType::Char),
        Some(Fault::NulInString(t)) if t == "a\0b"));
}

#[test]
fn a_nul_in_a_foreign_string_argument_is_refused() {
    let src = "((setq greet (ffi \"l\" \"greet\" (Str) Str)) (greet \"a\u{0}b\"))";
    assert!(matches!(run(src), Err(Fault::NulInString(t)) if t == "a\0b"));
}

#[test]
fn ffi_declarations_are_checked_before_they_are_made() {
    let args = vec![s("l"), s("f"), Value::List(vec![Value::Atom("Int".to_string())]), Value::Atom("Str".to_string())];
    assert!(ffi_decl_fault(&args).is_none());
    let mut ctx = global();
    let rt = program();
    assert_eq!(builtin_ffi(args, &mut ctx, &rt), Value::FFI("l".to_string(), "f".to_string(), vec![CType::Int], CType::Str));
    let bad = vec![s("l"), s("f"), Value::List(vec![Value::Atom("Long".to_string())]), Value::Atom("Str".to_string())];
    assert!(matches!(ffi_decl_fault(&bad), Some(Fault::UnknownCType(t)) if t == "Long"));
}

#[test]
fn include_is_refused_inside_a_lambda() {
    assert!(matches!(run("((setq f .(inc \"x\")) (f))"), Err(Fault::IncludeNotGlobal)));
}

#[test]
fn source_errors_outside_the_prompt_exit() {
    let (r, _, err) = run_output("(+ 1");
    assert!(matches!(r, Err(Fault::Exit(1))));
    assert_eq!(err, "parsing error: missing closing ')' for expression starting at line 1, column 1\n");
    let (r, _, err) = run_output("\n  #");
    assert!(matches!(r, Err(Fault::Exit(1))));
    assert_eq!(err, "tokenising error: could not recognise character '#' at line 2, column 3\n");
}

#[test]
fn source_errors_at_the_prompt_give_an_empty_list() {
    let mut ctx = global();
    let mut host = TestHost::new();
    let rt = RuntimeContext { in_repl: true, in_include: false, argv: vec![] };
    assert_eq!(run_in("(+ 1", &mut ctx, &rt, &mut host).unwrap(), Value::List(vec![]));
    assert_eq!(host.err, "parsing error: missing closing ')' for expression starting at line 1, column 1\n");
}

#[test]
fn string_escapes_and_positions() {
    assert_eq!(run("\"a\\tb\\nc\\q\"").unwrap(), Value::List(vec![s("a\tb\nc\\q")]));
    let (r, _, err) = run_output("\"x\ny\" $");
    assert!(matches!(r, Err(Fault::Exit(1))));
    assert_eq!(err, "tokenising error: could not recognise character '$' at line 2, column 4\n");
}

#[test]
fn replay_reads_every_reply_before_asking() {
    // each round reads all earlier replies before it asks for another
    let mut ctx = global();
    let mut host = TestHost::new();
    run_in("((print 1) (print 2.5) (print 3))", &mut ctx, &program(), &mut host).unwrap();
    assert_eq!(host.out, "12.53");
    // three prints, one float literal and one float text
    assert_eq!(host.asked, 5);
}

#[test]
fn more_replies_do_not_change_a_finished_run() {
    let rt = program();
    let mut c1 = global();
    let mut t1 = Transcript::new(vec![Reply::Bits(2.5f64.to_bits()), Reply::Text("2.5".to_string())]);
    let a = eval_str("(fmt 2.5)", &mut c1, &rt, &mut t1, u64::MAX);
    let mut c2 = global();
    let mut t2 = Transcript::new(vec![Reply::Bits(2.5f64.to_bits()), Reply::Text("2.5".to_string()), Reply::Unit]);
    let b = eval_str("(fmt 2.5)", &mut c2, &rt, &mut t2, u64::MAX);
    match (a, b) {
        (Outcome::Done(x), Outcome::Done(y)) => {
            assert_eq!(x, s("2.5"));
            assert_eq!(x, y);
        }
        other => panic!("unexpected {:?}", other),
    }
    assert_eq!(t1.cursor(), 2);
    assert_eq!(t2.cursor(), 2);
}

#[test]
fn runs_out_of_fuel() {
    let mut ctx = global();
    let rt = program();
    let mut t = Transcript::new(vec![]);
    assert!(matches!(eval_str("(+ 1 (+ 2 3))", &mut ctx, &rt, &mut t, 2), Outcome::Fail(Fault::OutOfFuel)));
    let mut t = Transcript::new(vec![]);
    assert!(matches!(eval_str("(+ 1 (+ 2 3))", &mut ctx, &rt, &mut t, 10), Outcome::Done(Value::Int(6))));
}

#[test]
fn formats_through_the_builtin_directly() {
    let mut ctx = global();
    let rt = program();
    let mut t = Transcript::new(vec![]);
    let r = builtin_fmt(vec![Value::Int(-12), Value::Bool(false), Value::Builtin(Builtin::Add)], &mut ctx, &rt, &mut t, 100);
    assert!(matches!(r, Outcome::Done(Value::Str(ref x)) if x == "-12false<Builtin>"));
}

#[test]
fn parenthesising_nests_the_parse() {
    let parse = |src: &str| {
        let toks = tinylisp::parser::tokenise(src).unwrap();
        let mut t = Transcript::new(vec![]);
        match tinylisp::parser::parse_tokens_to_ast(&toks, 0, false, false, None, 0, &mut t) {
            Outcome::Done(Ok(r)) => r,
            _ => panic!("parse failed"),
        }
    };
    let (inner, n) = parse("a \"s\" (b)");
    assert_eq!(n, 5);
    let (outer, m) = parse("(a \"s\" (b))");
    assert_eq!(m, n + 2);
    assert_eq!(outer, Value::Eval(vec![inner]));
    let (inner, n) = parse("x 1\n(y -)");
    let (outer, m) = parse("(x 1\n(y -))");
    assert_eq!(m, n + 2);
    assert_eq!(outer, Value::Eval(vec![inner]));
}

#[test]
fn formatting_two_values_joins_their_texts() {
    assert_eq!(run("(fmt '(1 2) \"x\")").unwrap(), s("(1 2)x"));
    assert_eq!(run("(fmt '(1 2))").unwrap(), s("(1 2)"));
    assert_eq!(run("(fmt \"x\")").unwrap(), s("x"));
}
