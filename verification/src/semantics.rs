//! The meaning of programs: a definitional interpreter over the models of
//! values, scopes and host replies. The executable interpreter is proved to
//! compute exactly what these functions define.
use vstd::prelude::*;
use crate::context::{Env, SRuntime, env_enter, env_lookup, env_pop, env_set};
use crate::ffi::{CType, ctype_named};
use crate::host::{ArithOp, FloatOp, Outcome, Reply, Res, SFault, SForeignArg, SRequest, reply_at};
use crate::parser::{init_state, parse_spec, tokenise_spec};
use crate::text::int_text;
use crate::value::{Builtin, SVal, Value, truthy, views};

verus! {

/// Where an evaluation step ends: its result, the scopes after it, and the
/// position of the next unread reply.
pub struct Step<T> {
    pub res: Res<T>,
    pub env: Env,
    pub pos: nat,
}

pub open spec fn done<T>(v: T, env: Env, pos: nat) -> Step<T> {
    Step { res: Res::Done(v), env, pos }
}

pub open spec fn fail<T>(e: SFault, env: Env, pos: nat) -> Step<T> {
    Step { res: Res::Fail(e), env, pos }
}

pub open spec fn need<T>(r: SRequest, env: Env, pos: nat) -> Step<T> {
    Step { res: Res::Need(r), env, pos }
}

/// A step that did not finish, passed on at another type.
pub open spec fn relay<T, U>(s: Step<T>) -> Step<U> {
    match s.res {
        Res::Fail(e) => fail(e, s.env, s.pos),
        Res::Need(r) => need(r, s.env, s.pos),
        Res::Done(_) => fail(SFault::UnexpectedReply, s.env, s.pos),
    }
}

/// The model of an outcome that carries a value.
pub open spec fn res_value(o: Outcome<Value>) -> Res<SVal> {
    match o {
        Outcome::Done(v) => Res::Done(v@),
        Outcome::Fail(e) => Res::Fail(e@),
        Outcome::Need(r) => Res::Need(r@),
    }
}

/// The model of an outcome that carries values.
pub open spec fn res_values(o: Outcome<Vec<Value>>) -> Res<Seq<SVal>> {
    match o {
        Outcome::Done(v) => Res::Done(views(v@)),
        Outcome::Fail(e) => Res::Fail(e@),
        Outcome::Need(r) => Res::Need(r@),
    }
}

/// The model of an outcome that carries text.
pub open spec fn res_text(o: Outcome<Vec<char>>) -> Res<Seq<char>> {
    match o {
        Outcome::Done(v) => Res::Done(v@),
        Outcome::Fail(e) => Res::Fail(e@),
        Outcome::Need(r) => Res::Need(r@),
    }
}

/// The model of an outcome that carries a truth value.
pub open spec fn res_bool(o: Outcome<bool>) -> Res<bool> {
    match o {
        Outcome::Done(v) => Res::Done(v),
        Outcome::Fail(e) => Res::Fail(e@),
        Outcome::Need(r) => Res::Need(r@),
    }
}

/// An outcome, with the scopes and reply position after it, is the step `s`.
pub open spec fn is_step<T>(res: Res<T>, env: Env, pos: nat, s: Step<T>) -> bool {
    &&& res == s.res
    &&& env == s.env
    &&& pos == s.pos
}

/// Whether an argument of a lambda or foreign call is evaluated before the
/// call (atoms and calls are; everything else is passed as it is).
pub open spec fn evaluated_arg(v: SVal) -> bool {
    v is Atom || v is Eval
}

/// The number of bytes of the UTF-8 encoding of `s`.
pub open spec fn utf8_len(s: Seq<char>) -> nat {
    vstd::utf8::encode_utf8(s).len()
}

/// The position of the first entry with key `k`, at or after `j`.
pub open spec fn key_index(d: Seq<(Seq<char>, SVal)>, k: Seq<char>, j: nat) -> Option<nat>
    decreases d.len() - j,
{
    if j >= d.len() {
        None
    } else if d[j as int].0 == k {
        Some(j)
    } else {
        key_index(d, k, j + 1)
    }
}

/// The value of the first entry with key `k`.
pub open spec fn dict_get(d: Seq<(Seq<char>, SVal)>, k: Seq<char>) -> Option<SVal> {
    match key_index(d, k, 0) {
        Some(j) => Some(d[j as int].1),
        None => None,
    }
}

/// `d` with `k` bound to `v`: the entry for `k` is replaced in place, or a new
/// entry is added at the end.
pub open spec fn dict_insert(d: Seq<(Seq<char>, SVal)>, k: Seq<char>, v: SVal) -> Seq<(Seq<char>, SVal)> {
    match key_index(d, k, 0) {
        Some(j) => d.update(j as int, (k, v)),
        None => d.push((k, v)),
    }
}

//////////////////////////////////////////////////////////////////////////////
// Evaluation
//////////////////////////////////////////////////////////////////////////////

/// Evaluating `ast` with `fuel` steps in scopes `env`.
///
/// An atom evaluates to its binding, or to an unresolved atom; an empty call
/// to an empty list; a call whose head is itself a call is a block (one
/// expression: its value; several: the list of their values, cut short by a
/// `ret`); any other call applies its evaluated head to its unevaluated
/// arguments. Everything else evaluates to itself.
pub open spec fn eval_spec(fuel: nat, ast: SVal, env: Env, rt: SRuntime, rs: Seq<Reply>, pos: nat) -> Step<SVal>
    decreases fuel, 0nat, 0nat,
{
    if fuel == 0 {
        fail(SFault::OutOfFuel, env, pos)
    } else {
        let f = (fuel - 1) as nat;
        match ast {
            SVal::Atom(name) => match env_lookup(env, name) {
                Some(v) => done(v, env, pos),
                None => done(SVal::UnresolvedAtom(name), env, pos),
            },
            SVal::Eval(list) => {
                if list.len() == 0 {
                    done(SVal::List(Seq::empty()), env, pos)
                } else if list[0] is Eval {
                    if list.len() == 1 {
                        eval_spec(f, list[0], env, rt, rs, pos)
                    } else {
                        block_spec(f, list, 0, Seq::empty(), env, rt, rs, pos)
                    }
                } else {
                    let s = eval_spec(f, list[0], env, rt, rs, pos);
                    match s.res {
                        Res::Done(oper) => apply_spec(f, oper, list.drop_first(), s.env, rt, rs, s.pos),
                        _ => relay(s),
                    }
                }
            },
            _ => done(ast, env, pos),
        }
    }
}

/// The expressions of a block from position `i`, with the values `acc` so far.
pub open spec fn block_spec(
    fuel: nat,
    list: Seq<SVal>,
    i: nat,
    acc: Seq<SVal>,
    env: Env,
    rt: SRuntime,
    rs: Seq<Reply>,
    pos: nat,
) -> Step<SVal>
    decreases fuel, 1nat, list.len() - i,
{
    if i >= list.len() {
        done(SVal::List(acc), env, pos)
    } else {
        let s = eval_spec(fuel, list[i as int], env, rt, rs, pos);
        match s.res {
            Res::Done(SVal::Ret(v)) => done(*v, s.env, s.pos),
            Res::Done(v) => block_spec(fuel, list, i + 1, acc.push(v), s.env, rt, rs, s.pos),
            _ => relay(s),
        }
    }
}

/// The arguments of a lambda or foreign call from position `i`: atoms and
/// calls evaluated, other values as they are.
pub open spec fn args_spec(
    fuel: nat,
    args: Seq<SVal>,
    i: nat,
    acc: Seq<SVal>,
    env: Env,
    rt: SRuntime,
    rs: Seq<Reply>,
    pos: nat,
) -> Step<Seq<SVal>>
    decreases fuel, 1nat, args.len() - i,
{
    if i >= args.len() {
        done(acc, env, pos)
    } else if evaluated_arg(args[i as int]) {
        let s = eval_spec(fuel, args[i as int], env, rt, rs, pos);
        match s.res {
            Res::Done(v) => args_spec(fuel, args, i + 1, acc.push(v), s.env, rt, rs, s.pos),
            _ => relay(s),
        }
    } else {
        args_spec(fuel, args, i + 1, acc.push(args[i as int]), env, rt, rs, pos)
    }
}

/// The operands of a builtin from position `i`, all evaluated in order.
pub open spec fn operands_spec(
    fuel: nat,
    args: Seq<SVal>,
    i: nat,
    acc: Seq<SVal>,
    env: Env,
    rt: SRuntime,
    rs: Seq<Reply>,
    pos: nat,
) -> Step<Seq<SVal>>
    decreases fuel, 1nat, args.len() - i,
{
    if i >= args.len() {
        done(acc, env, pos)
    } else {
        let s = eval_spec(fuel, args[i as int], env, rt, rs, pos);
        match s.res {
            Res::Done(v) => operands_spec(fuel, args, i + 1, acc.push(v), s.env, rt, rs, s.pos),
            _ => relay(s),
        }
    }
}

/// Applying an evaluated head `oper` to the unevaluated `args`.
pub open spec fn apply_spec(
    fuel: nat,
    oper: SVal,
    args: Seq<SVal>,
    env: Env,
    rt: SRuntime,
    rs: Seq<Reply>,
    pos: nat,
) -> Step<SVal>
    decreases fuel, 5nat, 0nat,
{
    match oper {
        SVal::Builtin(b) => builtin_spec(fuel, b, args, env, rt, rs, pos),
        SVal::Lambda(body) => {
            let s = args_spec(fuel, args, 0, Seq::empty(), env, rt, rs, pos);
            match s.res {
                Res::Done(vs) => {
                    if s.env.len() >= i32::MAX + 1 {
                        fail(SFault::Overflow(ArithOp::Add), s.env, s.pos)
                    } else {
                        let r = eval_spec(fuel, SVal::Eval(body), env_enter(s.env, vs), rt, rs, s.pos);
                        match r.res {
                            Res::Done(v) => done(v, env_pop(r.env), r.pos),
                            _ => r,
                        }
                    }
                },
                _ => relay(s),
            }
        },
        SVal::FFI(lib, sym, types, ret) => {
            let s = args_spec(fuel, args, 0, Seq::empty(), env, rt, rs, pos);
            match s.res {
                Res::Done(vs) => foreign_spec(lib, sym, types, ret, vs, s.env, rs, s.pos),
                _ => relay(s),
            }
        },
        _ => done(SVal::List(seq![oper] + args), env, pos),
    }
}

/// The argument of a foreign call for a value and its declared type.
pub open spec fn foreign_arg(v: SVal, t: CType) -> Option<SForeignArg> {
    match (v, t) {
        (SVal::Int(i), CType::Int) => Some(SForeignArg::Int(i)),
        (SVal::Float(b), CType::Float) => Some(SForeignArg::Float(b)),
        (SVal::Float(b), CType::Double) => Some(SForeignArg::Double(b)),
        (SVal::Str(s), CType::Str) => Some(SForeignArg::Str(s)),
        _ => None,
    }
}

/// A foreign-call argument can be passed: a string holds no NUL character,
/// which a C string cannot carry.
pub open spec fn passable(a: SForeignArg) -> bool {
    match a {
        SForeignArg::Str(s) => !s.contains('\0'),
        _ => true,
    }
}

/// The value `v` fits the declared type `t` and can be passed as it.
pub open spec fn arg_fits(v: SVal, t: CType) -> bool {
    match foreign_arg(v, t) {
        Some(a) => passable(a),
        None => false,
    }
}

/// A foreign call that can be made: as many values as declared types, each
/// fitting its type, and a return type other than `Char`.
pub open spec fn foreign_call_ok(types: Seq<CType>, vs: Seq<SVal>, ret: CType) -> bool {
    &&& types.len() == vs.len()
    &&& forall|i: int| 0 <= i < vs.len() ==> #[trigger] arg_fits(vs[i], types[i])
    &&& ret != CType::Char
}

/// The arguments of a foreign call from position `i`, or the fault for the
/// first value that does not fit its type or cannot be passed.
pub open spec fn marshal_spec(types: Seq<CType>, vs: Seq<SVal>, i: nat, acc: Seq<SForeignArg>) -> Result<
    Seq<SForeignArg>,
    SFault,
>
    decreases vs.len() - i,
{
    if i >= vs.len() || i >= types.len() {
        Ok(acc)
    } else {
        match foreign_arg(vs[i as int], types[i as int]) {
            Some(a) => {
                if passable(a) {
                    marshal_spec(types, vs, i + 1, acc.push(a))
                } else {
                    Err(SFault::NulInString(vs[i as int]->Str_0))
                }
            },
            None => Err(SFault::UnsupportedConversion(vs[i as int], types[i as int])),
        }
    }
}

/// The value a foreign call returns, from the host's reply.
pub open spec fn foreign_result(ret: CType, r: Reply) -> Option<SVal> {
    match (ret, r) {
        (CType::Int, Reply::Int(i)) => Some(SVal::Int(i)),
        (CType::Float, Reply::Bits(b)) => Some(SVal::Float(b)),
        (CType::Double, Reply::Bits(b)) => Some(SVal::Float(b)),
        (CType::Str, Reply::Text(s)) => Some(SVal::Str(s@)),
        _ => None,
    }
}

/// The arguments of a foreign call with declared argument types `types` and
/// return type `ret`: as many values as types, each fitting its type, and a
/// return type other than `Char`.
pub open spec fn ffi_args_spec(types: Seq<CType>, vs: Seq<SVal>, ret: CType) -> Result<Seq<SForeignArg>, SFault> {
    if types.len() != vs.len() {
        Err(SFault::ArgumentCountMismatch)
    } else {
        match marshal_spec(types, vs, 0, Seq::empty()) {
            Err(e) => Err(e),
            Ok(fargs) => {
                if ret == CType::Char {
                    Err(SFault::UnsupportedReturnType)
                } else {
                    Ok(fargs)
                }
            },
        }
    }
}

/// Calling `sym` in `lib` with the evaluated arguments `vs`: the symbol is
/// looked up first, then the arguments and return type are checked, then the
/// call is made.
pub open spec fn foreign_spec(
    lib: Seq<char>,
    sym: Seq<char>,
    types: Seq<CType>,
    ret: CType,
    vs: Seq<SVal>,
    env: Env,
    rs: Seq<Reply>,
    pos: nat,
) -> Step<SVal> {
    match reply_at(rs, pos) {
        None => need(SRequest::OpenForeign(lib, sym), env, pos),
        Some(Reply::Unit) => match ffi_args_spec(types, vs, ret) {
            Err(e) => fail(e, env, pos + 1),
            Ok(fargs) => match reply_at(rs, pos + 1) {
                None => need(SRequest::CallForeign(lib, sym, fargs, ret), env, pos + 1),
                Some(r) => match foreign_result(ret, r) {
                    Some(v) => done(v, env, pos + 2),
                    None => fail(SFault::UnexpectedReply, env, pos + 2),
                },
            },
        },
        Some(_) => fail(SFault::UnexpectedReply, env, pos + 1),
    }
}

/// Evaluating source text: tokenise, parse, evaluate. A tokenising or
/// parsing error is reported on standard error; at the prompt the result is
/// then an empty list, otherwise the program exits with status 1.
pub open spec fn eval_str_spec(fuel: nat, text: Seq<char>, env: Env, rt: SRuntime, rs: Seq<Reply>, pos: nat) -> Step<SVal>
    decreases fuel, 1nat, 0nat,
{
    match tokenise_spec(text) {
        Err(m) => report_spec("tokenising error: "@ + m, env, rt, rs, pos),
        Ok(toks) => {
            let (p, pos1) = parse_spec(toks, 0, 0, init_state(false, false), None, rs, pos);
            match p {
                Res::Done(Ok((ast, _))) => eval_spec(fuel, ast, env, rt, rs, pos1),
                Res::Done(Err(m)) => report_spec("parsing error: "@ + m, env, rt, rs, pos1),
                Res::Fail(e) => fail(e, env, pos1),
                Res::Need(r) => need(r, env, pos1),
            }
        },
    }
}

/// Reporting a source error on standard error, then giving up.
pub open spec fn report_spec(msg: Seq<char>, env: Env, rt: SRuntime, rs: Seq<Reply>, pos: nat) -> Step<SVal> {
    match reply_at(rs, pos) {
        None => need(SRequest::ErrorLine(msg), env, pos),
        Some(Reply::Unit) => {
            if rt.in_repl {
                done(SVal::List(Seq::empty()), env, pos + 1)
            } else {
                fail(SFault::Exit(1), env, pos + 1)
            }
        },
        Some(_) => fail(SFault::UnexpectedReply, env, pos + 1),
    }
}

//////////////////////////////////////////////////////////////////////////////
// Builtins
//////////////////////////////////////////////////////////////////////////////

/// Applying a builtin to its unevaluated arguments.
pub open spec fn builtin_spec(
    fuel: nat,
    b: Builtin,
    args: Seq<SVal>,
    env: Env,
    rt: SRuntime,
    rs: Seq<Reply>,
    pos: nat,
) -> Step<SVal>
    decreases fuel, 4nat, 0nat,
{
    match b {
        Builtin::Setq => setq_spec(fuel, args, env, rt, rs, pos),
        Builtin::Ifel => ifel_spec(fuel, args, env, rt, rs, pos),
        Builtin::Inc => inc_spec(fuel, args, env, rt, rs, pos),
        Builtin::Ffi => ffi_spec(args, env, pos),
        Builtin::RuntimeCtx => done(runtime_dict(rt), env, pos),
        Builtin::Fmt => fmt_spec(fuel, args, env, rt, rs, pos),
        Builtin::Print => print_spec(fuel, false, args, env, rt, rs, pos),
        Builtin::Println => print_spec(fuel, true, args, env, rt, rs, pos),
        _ => strict_builtin_spec(fuel, b, args, env, rt, rs, pos),
    }
}

/// A builtin that evaluates all its operands first, then looks only at them.
pub open spec fn strict_builtin_spec(
    fuel: nat,
    b: Builtin,
    args: Seq<SVal>,
    env: Env,
    rt: SRuntime,
    rs: Seq<Reply>,
    pos: nat,
) -> Step<SVal>
    decreases fuel, 2nat, 0nat,
{
    let s = operands_spec(fuel, args, 0, Seq::empty(), env, rt, rs, pos);
    match s.res {
        Res::Done(vals) => strict_spec(b, vals, s.env, rs, s.pos),
        _ => relay(s),
    }
}

/// The builtins that only look at their evaluated operands.
pub open spec fn strict_spec(b: Builtin, vals: Seq<SVal>, env: Env, rs: Seq<Reply>, pos: nat) -> Step<SVal> {
    match b {
        Builtin::Add => arith_spec(ArithOp::Add, vals, env, rs, pos),
        Builtin::Sub => arith_spec(ArithOp::Sub, vals, env, rs, pos),
        Builtin::Mul => arith_spec(ArithOp::Mul, vals, env, rs, pos),
        Builtin::Div => div_spec(vals, env, rs, pos),
        Builtin::Peek => peek_spec(vals, env, pos),
        Builtin::Eq => {
            if vals.len() < 2 {
                fail(SFault::IndexOutOfBounds(vals.len() as usize, vals.len() as usize), env, pos)
            } else {
                let (r, pos1) = equal_spec(vals[0], vals[1], rs, pos);
                match r {
                    Res::Done(e) => done(SVal::Bool(e), env, pos1),
                    Res::Fail(e) => fail(e, env, pos1),
                    Res::Need(q) => need(q, env, pos1),
                }
            }
        },
        Builtin::Gt => gt_spec(vals, env, rs, pos),
        Builtin::And => {
            if vals.len() == 0 {
                fail(SFault::IndexOutOfBounds(0, 0), env, pos)
            } else if !truthy(vals[0]) {
                done(SVal::Bool(false), env, pos)
            } else if vals.len() == 1 {
                fail(SFault::IndexOutOfBounds(1, 1), env, pos)
            } else {
                done(SVal::Bool(truthy(vals[1])), env, pos)
            }
        },
        Builtin::Or => {
            if vals.len() == 0 {
                fail(SFault::IndexOutOfBounds(0, 0), env, pos)
            } else if truthy(vals[0]) {
                done(SVal::Bool(true), env, pos)
            } else if vals.len() == 1 {
                fail(SFault::IndexOutOfBounds(1, 1), env, pos)
            } else {
                done(SVal::Bool(truthy(vals[1])), env, pos)
            }
        },
        Builtin::Not => {
            if vals.len() == 0 {
                fail(SFault::IndexOutOfBounds(0, 0), env, pos)
            } else {
                done(SVal::Bool(!truthy(vals[0])), env, pos)
            }
        },
        Builtin::Len => {
            if vals.len() == 0 {
                fail(SFault::IndexOutOfBounds(0, 0), env, pos)
            } else {
                match vals[0] {
                    SVal::Str(s) => done(SVal::Int((utf8_len(s) as usize) as i64), env, pos),
                    SVal::List(l) => done(SVal::Int((l.len() as usize) as i64), env, pos),
                    _ => fail(SFault::TypeError, env, pos),
                }
            }
        },
        Builtin::Dict => dict_spec(vals, 0, Seq::empty(), Seq::empty(), env, pos),
        // `ret`: the last of the builtins that evaluate all their operands
        // first; the others never come here (see `builtin_spec`).
        _ => {
            if vals.len() == 0 {
                fail(SFault::IndexOutOfBounds(0, 0), env, pos)
            } else {
                done(SVal::Ret(Box::new(vals[0])), env, pos)
            }
        },
    }
}

/// `+`, `-`, `*` on two operands: integers (failing on overflow), floats
/// (computed by the host), and for `+` strings (concatenated).
pub open spec fn arith_spec(op: ArithOp, vals: Seq<SVal>, env: Env, rs: Seq<Reply>, pos: nat) -> Step<SVal> {
    if vals.len() < 2 {
        fail(SFault::IndexOutOfBounds(vals.len() as usize, vals.len() as usize), env, pos)
    } else {
        match (vals[0], vals[1]) {
            (SVal::Int(a), SVal::Int(b)) => {
                let r: int = match op {
                    ArithOp::Add => a + b,
                    ArithOp::Sub => a - b,
                    ArithOp::Mul => a * b,
                };
                if r < i64::MIN || r > i64::MAX {
                    fail(SFault::Overflow(op), env, pos)
                } else {
                    done(SVal::Int(r as i64), env, pos)
                }
            },
            (SVal::Float(a), SVal::Float(b)) => {
                let fop = match op {
                    ArithOp::Add => FloatOp::Add,
                    ArithOp::Sub => FloatOp::Sub,
                    ArithOp::Mul => FloatOp::Mul,
                };
                float_reply(SRequest::FloatArith(fop, a, b), env, rs, pos)
            },
            (SVal::Str(a), SVal::Str(b)) => {
                if op == ArithOp::Add {
                    done(SVal::Str(a + b), env, pos)
                } else {
                    fail(SFault::TypeError, env, pos)
                }
            },
            _ => fail(SFault::TypeError, env, pos),
        }
    }
}

/// A float computed by the host.
pub open spec fn float_reply(req: SRequest, env: Env, rs: Seq<Reply>, pos: nat) -> Step<SVal> {
    match reply_at(rs, pos) {
        None => need(req, env, pos),
        Some(Reply::Bits(r)) => done(SVal::Float(r), env, pos + 1),
        Some(_) => fail(SFault::UnexpectedReply, env, pos + 1),
    }
}

/// `/`: always a float, computed by the host.
pub open spec fn div_spec(vals: Seq<SVal>, env: Env, rs: Seq<Reply>, pos: nat) -> Step<SVal> {
    if vals.len() < 2 {
        fail(SFault::IndexOutOfBounds(vals.len() as usize, vals.len() as usize), env, pos)
    } else {
        match (vals[0], vals[1]) {
            (SVal::Int(a), SVal::Int(b)) => float_reply(SRequest::IntQuotient(a, b), env, rs, pos),
            (SVal::Float(a), SVal::Float(b)) => float_reply(SRequest::FloatArith(FloatOp::Div, a, b), env, rs, pos),
            _ => fail(SFault::TypeError, env, pos),
        }
    }
}

/// `>` on two integers, or two floats (compared by the host).
pub open spec fn gt_spec(vals: Seq<SVal>, env: Env, rs: Seq<Reply>, pos: nat) -> Step<SVal> {
    if vals.len() < 2 {
        fail(SFault::IndexOutOfBounds(vals.len() as usize, vals.len() as usize), env, pos)
    } else {
        match (vals[0], vals[1]) {
            (SVal::Int(a), SVal::Int(b)) => done(SVal::Bool(a > b), env, pos),
            (SVal::Float(a), SVal::Float(b)) => match reply_at(rs, pos) {
                None => need(SRequest::FloatGreater(a, b), env, pos),
                Some(Reply::Flag(r)) => done(SVal::Bool(r), env, pos + 1),
                Some(_) => fail(SFault::UnexpectedReply, env, pos + 1),
            },
            _ => fail(SFault::InvalidComparison(vals[0], vals[1]), env, pos),
        }
    }
}

/// `@`: an element of a list, a character of a string, or an entry of a
/// dictionary.
pub open spec fn peek_spec(vals: Seq<SVal>, env: Env, pos: nat) -> Step<SVal> {
    if vals.len() < 2 {
        fail(SFault::IndexOutOfBounds(vals.len() as usize, vals.len() as usize), env, pos)
    } else {
        match (vals[0], vals[1]) {
            (SVal::List(a), SVal::Int(b)) => {
                if (b as usize) < a.len() {
                    done(a[(b as usize) as int], env, pos)
                } else {
                    fail(SFault::IndexOutOfBounds(a.len() as usize, b as usize), env, pos)
                }
            },
            (SVal::Str(a), SVal::Int(b)) => {
                if (b as usize) < a.len() {
                    done(SVal::Str(seq![a[(b as usize) as int]]), env, pos)
                } else {
                    fail(SFault::UnwrapNone, env, pos)
                }
            },
            (SVal::Dict(a), SVal::Str(b)) => match dict_get(a, b) {
                Some(v) => done(v, env, pos),
                None => fail(SFault::UnwrapNone, env, pos),
            },
            _ => fail(SFault::TypeError, env, pos),
        }
    }
}

/// `dict`: keys at even positions, values at odd ones; a later value for a
/// key replaces an earlier one, and a trailing key without a value is dropped.
pub open spec fn dict_spec(
    vals: Seq<SVal>,
    i: nat,
    key: Seq<char>,
    acc: Seq<(Seq<char>, SVal)>,
    env: Env,
    pos: nat,
) -> Step<SVal>
    decreases vals.len() - i,
{
    if i >= vals.len() {
        done(SVal::Dict(acc), env, pos)
    } else if i % 2 == 0 {
        match vals[i as int] {
            SVal::Str(k) => dict_spec(vals, i + 1, k, acc, env, pos),
            _ => fail(SFault::DictKeyNotString, env, pos),
        }
    } else {
        dict_spec(vals, i + 1, key, dict_insert(acc, key, vals[i as int]), env, pos)
    }
}

/// `runtime_ctx`: a dictionary of `in_repl`, `in_include` and `argv`.
pub open spec fn runtime_dict(rt: SRuntime) -> SVal {
    SVal::Dict(
        seq![
            ("in_repl"@, SVal::Bool(rt.in_repl)),
            ("in_include"@, SVal::Bool(rt.in_include)),
            ("argv"@, SVal::List(Seq::new(rt.argv.len(), |i: int| SVal::Str(rt.argv[i])))),
        ],
    )
}

/// `setq`: binds an atom to the value of an expression in the innermost scope.
pub open spec fn setq_spec(fuel: nat, args: Seq<SVal>, env: Env, rt: SRuntime, rs: Seq<Reply>, pos: nat) -> Step<SVal>
    decreases fuel, 2nat, 0nat,
{
    if args.len() < 2 {
        fail(SFault::IndexOutOfBounds(args.len() as usize, args.len() as usize), env, pos)
    } else {
        match args[0] {
            SVal::Atom(name) => {
                let s = eval_spec(fuel, args[1], env, rt, rs, pos);
                match s.res {
                    Res::Done(v) => done(v, env_set(s.env, name, v), s.pos),
                    _ => s,
                }
            },
            _ => fail(SFault::SetqNameNotAtom, env, pos),
        }
    }
}

/// `ifel`: evaluates the second or third argument as the first is `true` or
/// `false`.
pub open spec fn ifel_spec(fuel: nat, args: Seq<SVal>, env: Env, rt: SRuntime, rs: Seq<Reply>, pos: nat) -> Step<SVal>
    decreases fuel, 2nat, 0nat,
{
    if args.len() == 0 {
        fail(SFault::IndexOutOfBounds(0, 0), env, pos)
    } else {
        let c = eval_spec(fuel, args[0], env, rt, rs, pos);
        match c.res {
            Res::Done(SVal::Bool(true)) => {
                if args.len() < 2 {
                    fail(SFault::IndexOutOfBounds(args.len() as usize, 1), c.env, c.pos)
                } else {
                    eval_spec(fuel, args[1], c.env, rt, rs, c.pos)
                }
            },
            Res::Done(SVal::Bool(false)) => {
                if args.len() < 3 {
                    fail(SFault::IndexOutOfBounds(args.len() as usize, 2), c.env, c.pos)
                } else {
                    eval_spec(fuel, args[2], c.env, rt, rs, c.pos)
                }
            },
            Res::Done(_) => fail(SFault::ConditionNotBool, c.env, c.pos),
            _ => c,
        }
    }
}

/// `inc`: evaluates the file named by its argument, in the global scope only.
pub open spec fn inc_spec(fuel: nat, args: Seq<SVal>, env: Env, rt: SRuntime, rs: Seq<Reply>, pos: nat) -> Step<SVal>
    decreases fuel, 2nat, 0nat,
{
    if env.len() != 1 {
        fail(SFault::IncludeNotGlobal, env, pos)
    } else if args.len() == 0 {
        fail(SFault::IndexOutOfBounds(0, 0), env, pos)
    } else {
        let s = eval_spec(fuel, args[0], env, rt, rs, pos);
        match s.res {
            Res::Done(SVal::Str(name)) => match reply_at(rs, s.pos) {
                None => need(SRequest::ReadFile(name), s.env, s.pos),
                Some(Reply::Text(c)) => eval_str_spec(
                    fuel,
                    c@,
                    s.env,
                    SRuntime { in_repl: rt.in_repl, in_include: true, argv: rt.argv },
                    rs,
                    s.pos + 1,
                ),
                Some(Reply::Missing) => fail(SFault::IncludeUnreadable(name), s.env, s.pos + 1),
                Some(_) => fail(SFault::UnexpectedReply, s.env, s.pos + 1),
            },
            Res::Done(_) => fail(SFault::IncludeNameNotString, s.env, s.pos),
            _ => s,
        }
    }
}

/// The C types named by the atoms of a foreign declaration, from position `i`.
pub open spec fn ctypes_spec(tl: Seq<SVal>, i: nat, acc: Seq<CType>) -> Result<Seq<CType>, SFault>
    decreases tl.len() - i,
{
    if i >= tl.len() {
        Ok(acc)
    } else {
        match tl[i as int] {
            SVal::Atom(a) => match ctype_named(a) {
                Some(t) => ctypes_spec(tl, i + 1, acc.push(t)),
                None => Err(SFault::UnknownCType(a)),
            },
            _ => Err(SFault::UnpackNonAtom),
        }
    }
}

/// A value that names a C type: an atom such as `Int`.
pub open spec fn names_ctype(v: SVal) -> bool {
    v is Atom && ctype_named(v->Atom_0) is Some
}

/// Arguments that `ffi` accepts: a library name, a function name, a list of
/// atoms naming the argument types, and an atom naming the return type.
pub open spec fn ffi_decl_ok(args: Seq<SVal>) -> bool {
    &&& args.len() >= 4
    &&& args[0] is Str
    &&& args[1] is Str
    &&& (args[2] is List || args[2] is Eval)
    &&& forall|i: int| 0 <= i < items(args[2]).len() ==> #[trigger] names_ctype(items(args[2])[i])
    &&& names_ctype(args[3])
}

/// The items of a list or a call; nothing for other values.
pub open spec fn items(v: SVal) -> Seq<SVal> {
    match v {
        SVal::List(tl) => tl,
        SVal::Eval(tl) => tl,
        _ => Seq::empty(),
    }
}

/// The declaration `ffi` makes of its unevaluated arguments, or the fault for
/// the first thing wrong with them: the argument list, each of its types, the
/// library name, the function name, then the return type.
pub open spec fn ffi_decl_spec(args: Seq<SVal>) -> Result<SVal, SFault> {
    if args.len() < 3 {
        Err(SFault::IndexOutOfBounds(args.len() as usize, 2))
    } else {
        match args[2] {
            SVal::List(tl) | SVal::Eval(tl) => match ctypes_spec(tl, 0, Seq::empty()) {
                Err(e) => Err(e),
                Ok(types) => match args[0] {
                    SVal::Str(lib) => match args[1] {
                        SVal::Str(sym) => {
                            if args.len() < 4 {
                                Err(SFault::IndexOutOfBounds(args.len() as usize, 3))
                            } else {
                                match args[3] {
                                    SVal::Atom(r) => match ctype_named(r) {
                                        Some(ret) => Ok(SVal::FFI(lib, sym, types, ret)),
                                        None => Err(SFault::UnknownCType(r)),
                                    },
                                    _ => Err(SFault::FfiNeedsReturnType),
                                }
                            }
                        },
                        _ => Err(SFault::FfiNeedsFunctionName),
                    },
                    _ => Err(SFault::FfiNeedsFileName),
                },
            },
            _ => Err(SFault::FfiNeedsArgumentList),
        }
    }
}

/// `ffi`: declares a foreign function from its unevaluated arguments.
pub open spec fn ffi_spec(args: Seq<SVal>, env: Env, pos: nat) -> Step<SVal> {
    match ffi_decl_spec(args) {
        Ok(v) => done(v, env, pos),
        Err(e) => fail(e, env, pos),
    }
}

/// `print` and `println`: formats the arguments, writes the text, and yields it.
pub open spec fn print_spec(
    fuel: nat,
    line: bool,
    args: Seq<SVal>,
    env: Env,
    rt: SRuntime,
    rs: Seq<Reply>,
    pos: nat,
) -> Step<SVal>
    decreases fuel, 3nat, 0nat,
{
    let s = fmt_spec(fuel, args, env, rt, rs, pos);
    match s.res {
        Res::Done(SVal::Str(text)) => match reply_at(rs, s.pos) {
            None => need(if line { SRequest::PrintLine(text) } else { SRequest::Print(text) }, s.env, s.pos),
            Some(Reply::Unit) => done(SVal::Str(text), s.env, s.pos + 1),
            Some(_) => fail(SFault::UnexpectedReply, s.env, s.pos + 1),
        },
        _ => s,
    }
}

//////////////////////////////////////////////////////////////////////////////
// Formatting
//////////////////////////////////////////////////////////////////////////////

/// `fmt`: the texts of the evaluated arguments, one after another.
pub open spec fn fmt_spec(fuel: nat, args: Seq<SVal>, env: Env, rt: SRuntime, rs: Seq<Reply>, pos: nat) -> Step<SVal>
    decreases fuel, 2nat, 0nat,
{
    let s = operands_spec(fuel, args, 0, Seq::empty(), env, rt, rs, pos);
    match s.res {
        Res::Done(vals) => {
            let t = fmt_vals_spec(fuel, vals, 0, Seq::empty(), s.env, rt, rs, s.pos);
            match t.res {
                Res::Done(text) => done(SVal::Str(text), t.env, t.pos),
                _ => relay(t),
            }
        },
        _ => relay(s),
    }
}

pub open spec fn fmt_vals_spec(
    fuel: nat,
    vals: Seq<SVal>,
    i: nat,
    acc: Seq<char>,
    env: Env,
    rt: SRuntime,
    rs: Seq<Reply>,
    pos: nat,
) -> Step<Seq<char>>
    decreases fuel, 1nat, vals.len() - i,
{
    if i >= vals.len() {
        done(acc, env, pos)
    } else {
        let s = fmt_one_spec(fuel, vals[i as int], env, rt, rs, pos);
        match s.res {
            Res::Done(piece) => fmt_vals_spec(fuel, vals, i + 1, acc + piece, s.env, rt, rs, s.pos),
            _ => s,
        }
    }
}

/// The text of one value. The elements of lists and the values of
/// dictionaries are evaluated again before they are formatted.
pub open spec fn fmt_one_spec(fuel: nat, x: SVal, env: Env, rt: SRuntime, rs: Seq<Reply>, pos: nat) -> Step<Seq<char>>
    decreases fuel, 0nat, 0nat,
{
    match x {
        SVal::Int(i) => done(int_text(i as int), env, pos),
        SVal::Float(b) => match reply_at(rs, pos) {
            None => need(SRequest::FloatText(b), env, pos),
            Some(Reply::Text(t)) => done(t@, env, pos + 1),
            Some(_) => fail(SFault::UnexpectedReply, env, pos + 1),
        },
        SVal::Str(s) => done(s, env, pos),
        SVal::Bool(b) => done(if b { "true"@ } else { "false"@ }, env, pos),
        SVal::Atom(a) => done(a + "?"@, env, pos),
        SVal::UnresolvedAtom(a) => done("?"@ + a + "?"@, env, pos),
        SVal::List(l) | SVal::Eval(l) => {
            if fuel == 0 {
                fail(SFault::OutOfFuel, env, pos)
            } else {
                let s = fmt_items_spec((fuel - 1) as nat, l, 0, Seq::empty(), env, rt, rs, pos);
                match s.res {
                    Res::Done(inner) => done("("@ + inner + ")"@, s.env, s.pos),
                    _ => s,
                }
            }
        },
        SVal::Dict(d) => {
            if fuel == 0 {
                fail(SFault::OutOfFuel, env, pos)
            } else {
                fmt_entries_spec((fuel - 1) as nat, d, 0, Seq::empty(), env, rt, rs, pos)
            }
        },
        SVal::Lambda(_) => done("<Lambda>"@, env, pos),
        SVal::Builtin(_) => done("<Builtin>"@, env, pos),
        SVal::FFI(_, _, _, _) => done("<FFI>"@, env, pos),
        SVal::Ret(v) => {
            if fuel == 0 {
                fail(SFault::OutOfFuel, env, pos)
            } else {
                let s = fmt_spec((fuel - 1) as nat, seq![*v], env, rt, rs, pos);
                match s.res {
                    Res::Done(r) => done(text_or_empty(r), s.env, s.pos),
                    _ => relay(s),
                }
            }
        },
    }
}

/// The text of a formatted value; formatting always gives a string.
pub open spec fn text_or_empty(v: SVal) -> Seq<char> {
    match v {
        SVal::Str(s) => s,
        _ => Seq::empty(),
    }
}

/// The elements of a list from position `i`, separated by spaces.
pub open spec fn fmt_items_spec(
    fuel: nat,
    l: Seq<SVal>,
    i: nat,
    acc: Seq<char>,
    env: Env,
    rt: SRuntime,
    rs: Seq<Reply>,
    pos: nat,
) -> Step<Seq<char>>
    decreases fuel, 3nat, l.len() - i,
{
    if i >= l.len() {
        done(acc, env, pos)
    } else {
        let s = fmt_spec(fuel, seq![l[i as int]], env, rt, rs, pos);
        match s.res {
            Res::Done(r) => {
                let acc2 = if i > 0 { acc + " "@ + text_or_empty(r) } else { acc + text_or_empty(r) };
                fmt_items_spec(fuel, l, i + 1, acc2, s.env, rt, rs, s.pos)
            },
            _ => relay(s),
        }
    }
}

/// The entries of a dictionary from position `i`, as `key: value`; a `, `
/// follows an entry when its position plus one is less than the byte length
/// of its value's text.
pub open spec fn fmt_entries_spec(
    fuel: nat,
    d: Seq<(Seq<char>, SVal)>,
    i: nat,
    acc: Seq<char>,
    env: Env,
    rt: SRuntime,
    rs: Seq<Reply>,
    pos: nat,
) -> Step<Seq<char>>
    decreases fuel, 3nat, d.len() - i,
{
    if i >= d.len() {
        done(acc, env, pos)
    } else {
        let s = fmt_spec(fuel, seq![d[i as int].1], env, rt, rs, pos);
        match s.res {
            Res::Done(r) => {
                let text = text_or_empty(r);
                let acc2 = acc + d[i as int].0 + ": "@ + text;
                let acc3 = if i + 1 < (utf8_len(text) as usize) { acc2 + ", "@ } else { acc2 };
                fmt_entries_spec(fuel, d, i + 1, acc3, s.env, rt, rs, s.pos)
            },
            _ => relay(s),
        }
    }
}

//////////////////////////////////////////////////////////////////////////////
// Equality
//////////////////////////////////////////////////////////////////////////////

/// Whether two values are equal: the same variant with equal parts, where
/// floats are compared by the host, sequences element by element up to the
/// first difference, and dictionaries as maps.
pub open spec fn equal_spec(a: SVal, b: SVal, rs: Seq<Reply>, pos: nat) -> (Res<bool>, nat)
    decreases a, 0int,
{
    match (a, b) {
        (SVal::Int(x), SVal::Int(y)) => (Res::Done(x == y), pos),
        (SVal::Float(x), SVal::Float(y)) => match reply_at(rs, pos) {
            None => (Res::Need(SRequest::FloatEqual(x, y)), pos),
            Some(Reply::Flag(r)) => (Res::Done(r), pos + 1),
            Some(_) => (Res::Fail(SFault::UnexpectedReply), pos + 1),
        },
        (SVal::Str(x), SVal::Str(y)) => (Res::Done(x == y), pos),
        (SVal::Atom(x), SVal::Atom(y)) => (Res::Done(x == y), pos),
        (SVal::UnresolvedAtom(x), SVal::UnresolvedAtom(y)) => (Res::Done(x == y), pos),
        (SVal::Bool(x), SVal::Bool(y)) => (Res::Done(x == y), pos),
        (SVal::List(x), SVal::List(y)) => equal_seq_spec(x, y, 0, rs, pos),
        (SVal::Eval(x), SVal::Eval(y)) => equal_seq_spec(x, y, 0, rs, pos),
        (SVal::Lambda(x), SVal::Lambda(y)) => equal_seq_spec(x, y, 0, rs, pos),
        (SVal::FFI(a1, a2, a3, a4), SVal::FFI(b1, b2, b3, b4)) => (
            Res::Done(a1 == b1 && a2 == b2 && a3 == b3 && a4 == b4),
            pos,
        ),
        (SVal::Dict(x), SVal::Dict(y)) => {
            if x.len() != y.len() {
                (Res::Done(false), pos)
            } else {
                equal_dict_spec(x, y, 0, rs, pos)
            }
        },
        (SVal::Builtin(x), SVal::Builtin(y)) => (Res::Done(x == y), pos),
        (SVal::Ret(x), SVal::Ret(y)) => equal_spec(*x, *y, rs, pos),
        _ => (Res::Done(false), pos),
    }
}

pub open spec fn equal_seq_spec(x: Seq<SVal>, y: Seq<SVal>, i: nat, rs: Seq<Reply>, pos: nat) -> (Res<bool>, nat)
    decreases x, x.len() - i,
{
    if x.len() != y.len() {
        (Res::Done(false), pos)
    } else if i >= x.len() {
        (Res::Done(true), pos)
    } else {
        let (r, pos1) = equal_spec(x[i as int], y[i as int], rs, pos);
        match r {
            Res::Done(true) => equal_seq_spec(x, y, i + 1, rs, pos1),
            _ => (r, pos1),
        }
    }
}

pub open spec fn equal_dict_spec(
    x: Seq<(Seq<char>, SVal)>,
    y: Seq<(Seq<char>, SVal)>,
    i: nat,
    rs: Seq<Reply>,
    pos: nat,
) -> (Res<bool>, nat)
    decreases x, x.len() - i,
{
    if i >= x.len() {
        (Res::Done(true), pos)
    } else {
        match dict_get(y, x[i as int].0) {
            None => (Res::Done(false), pos),
            Some(w) => {
                let (r, pos1) = equal_spec(x[i as int].1, w, rs, pos);
                match r {
                    Res::Done(true) => equal_dict_spec(x, y, i + 1, rs, pos1),
                    _ => (r, pos1),
                }
            },
        }
    }
}

} // verus!
