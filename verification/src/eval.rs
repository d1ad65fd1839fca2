//! The evaluator: expressions, blocks, calls of lambdas and foreign
//! functions, and whole source texts.
use vstd::prelude::*;
use crate::builtins::call_builtin;
use crate::context::{Context, RuntimeContext, env_enter, env_pop};
use crate::ffi::CType;
use crate::host::{ArithOp, Fault, ForeignArg, ForeignCall, Outcome, Reply, Request, SFault, SForeignArg, Transcript, reply_at};
use crate::parser::{parse_tokens_to_ast, tokenise, token_views, init_state, parse_res};
use crate::semantics::{
    is_step, res_value, res_values, eval_spec, block_spec, args_spec, operands_spec, apply_spec,
    marshal_spec, foreign_spec, report_spec, eval_str_spec, ffi_args_spec, foreign_arg, arg_fits,
    foreign_call_ok,
};
use crate::laws::law_eval_replies_and_scopes;
use crate::text::{chars_of, string_of};
use crate::value::{SVal, Value, views, lemma_list_views};

verus! {

/// Evaluates `ast` in `ctx` with at most `fuel` nested steps, reading host
/// replies from `t`. See [`eval_spec`] for what it computes.
pub fn eval(ast: Value, ctx: &mut Context, runtime_ctx: &RuntimeContext, t: &mut Transcript, fuel: u64) -> (r: Outcome<Value>)
    requires
        old(ctx).wf(),
    ensures
        final(ctx).wf(),
        final(t).answers() == old(t).answers(),
        is_step(res_value(r), final(ctx)@, final(t).position(),
            eval_spec(fuel as nat, ast@, old(ctx)@, runtime_ctx@, old(t).answers(), old(t).position())),
        r is Done ==> final(ctx).depth == old(ctx).depth,
        r is Done ==> forall|i: int| 0 <= i < old(ctx).depth ==> #[trigger] final(ctx)@[i] == old(ctx)@[i],
    decreases fuel, 0nat, 0nat,
{
    proof {
        use_type_invariant(&*t);
        law_eval_replies_and_scopes(fuel as nat, ast@, ctx@, runtime_ctx@, t.answers(), t.answers(), t.position());
    }
    if fuel == 0 {
        return Outcome::Fail(Fault::OutOfFuel);
    }
    let f = fuel - 1;
    match ast {
        Value::Atom(name) => {
            match ctx.get(name.as_str()) {
                Some(v) => Outcome::Done(v),
                None => Outcome::Done(Value::UnresolvedAtom(name)),
            }
        },
        Value::Eval(list) => {
            proof {
                lemma_list_views(list);
            }
            let ghost lv = views(list@);
            if list.len() == 0 {
                let e: Vec<Value> = Vec::new();
                proof {
                    lemma_list_views(e);
                    assert(views(e@) =~= Seq::<SVal>::empty());
                }
                return Outcome::Done(Value::List(e));
            }
            let head_is_eval = match &list[0] {
                Value::Eval(_) => true,
                _ => false,
            };
            assert(lv[0] == list@[0]@);
            if head_is_eval {
                if list.len() == 1 {
                    let x = list[0].copy();
                    return eval(x, ctx, runtime_ctx, t, f);
                } else {
                    return eval_block(&list, ctx, runtime_ctx, t, f);
                }
            }
            let mut rest = list;
            let head = rest.remove(0);
            proof {
                assert(views(rest@) =~= lv.drop_first());
            }
            match eval(head, ctx, runtime_ctx, t, f) {
                Outcome::Done(oper) => apply(oper, rest, ctx, runtime_ctx, t, f),
                Outcome::Fail(e) => Outcome::Fail(e),
                Outcome::Need(q) => Outcome::Need(q),
            }
        },
        other => Outcome::Done(other),
    }
}

/// Evaluates the expressions of a block in order; a `ret` value ends the
/// block with the value it carries.
fn eval_block(list: &Vec<Value>, ctx: &mut Context, rt: &RuntimeContext, t: &mut Transcript, fuel: u64) -> (r: Outcome<Value>)
    requires
        old(ctx).wf(),
    ensures
        final(ctx).wf(),
        final(t).answers() == old(t).answers(),
        is_step(res_value(r), final(ctx)@, final(t).position(),
            block_spec(fuel as nat, views(list@), 0, Seq::empty(), old(ctx)@, rt@, old(t).answers(), old(t).position())),
    decreases fuel, 1nat, 0nat,
{
    let ghost lv = views(list@);
    let mut acc: Vec<Value> = Vec::new();
    let mut i: usize = 0;
    proof {
        assert(views(acc@) =~= Seq::<SVal>::empty());
    }
    while i < list.len()
        invariant
            ctx.wf(),
            i <= list@.len(),
            lv == views(list@),
            t.answers() == old(t).answers(),
            block_spec(fuel as nat, lv, 0, Seq::empty(), old(ctx)@, rt@, old(t).answers(), old(t).position())
                == block_spec(fuel as nat, lv, i as nat, views(acc@), ctx@, rt@, t.answers(), t.position()),
        decreases list@.len() - i,
    {
        let x = list[i].copy();
        let ghost acc_v = views(acc@);
        match eval(x, ctx, rt, t, fuel) {
            Outcome::Done(v) => {
                match v {
                    Value::Ret(inner) => {
                        return Outcome::Done(*inner);
                    },
                    other => {
                        acc.push(other);
                        proof {
                            assert(views(acc@) =~= acc_v.push(other@));
                        }
                    },
                }
            },
            Outcome::Fail(e) => {
                return Outcome::Fail(e);
            },
            Outcome::Need(q) => {
                return Outcome::Need(q);
            },
        }
        i += 1;
    }
    proof {
        lemma_list_views(acc);
    }
    Outcome::Done(Value::List(acc))
}

/// Evaluates the arguments of a lambda or foreign call: atoms and calls are
/// evaluated, other values are passed as they are.
fn eval_args(args: &Vec<Value>, ctx: &mut Context, rt: &RuntimeContext, t: &mut Transcript, fuel: u64) -> (r: Outcome<Vec<Value>>)
    requires
        old(ctx).wf(),
    ensures
        final(ctx).wf(),
        final(t).answers() == old(t).answers(),
        is_step(res_values(r), final(ctx)@, final(t).position(),
            args_spec(fuel as nat, views(args@), 0, Seq::empty(), old(ctx)@, rt@, old(t).answers(), old(t).position())),
    decreases fuel, 1nat, 0nat,
{
    let ghost av = views(args@);
    let mut acc: Vec<Value> = Vec::new();
    let mut i: usize = 0;
    proof {
        assert(views(acc@) =~= Seq::<SVal>::empty());
    }
    while i < args.len()
        invariant
            ctx.wf(),
            i <= args@.len(),
            av == views(args@),
            t.answers() == old(t).answers(),
            args_spec(fuel as nat, av, 0, Seq::empty(), old(ctx)@, rt@, old(t).answers(), old(t).position())
                == args_spec(fuel as nat, av, i as nat, views(acc@), ctx@, rt@, t.answers(), t.position()),
        decreases args@.len() - i,
    {
        let ghost acc_v = views(acc@);
        let evaluated = match &args[i] {
            Value::Atom(_) | Value::Eval(_) => true,
            _ => false,
        };
        assert(av[i as int] == args@[i as int]@);
        let x = args[i].copy();
        if evaluated {
            match eval(x, ctx, rt, t, fuel) {
                Outcome::Done(v) => {
                    acc.push(v);
                    proof {
                        assert(views(acc@) =~= acc_v.push(v@));
                    }
                },
                Outcome::Fail(e) => {
                    return Outcome::Fail(e);
                },
                Outcome::Need(q) => {
                    return Outcome::Need(q);
                },
            }
        } else {
            acc.push(x);
            proof {
                assert(views(acc@) =~= acc_v.push(x@));
            }
        }
        i += 1;
    }
    Outcome::Done(acc)
}

/// Evaluates every operand of a builtin, in order.
pub fn handle_operands(args: Vec<Value>, ctx: &mut Context, runtime_ctx: &RuntimeContext, t: &mut Transcript, fuel: u64) -> (r: Outcome<Vec<Value>>)
    requires
        old(ctx).wf(),
    ensures
        final(ctx).wf(),
        final(t).answers() == old(t).answers(),
        is_step(res_values(r), final(ctx)@, final(t).position(),
            operands_spec(fuel as nat, views(args@), 0, Seq::empty(), old(ctx)@, runtime_ctx@, old(t).answers(), old(t).position())),
    decreases fuel, 1nat, 0nat,
{
    let ghost av = views(args@);
    let mut acc: Vec<Value> = Vec::new();
    let mut i: usize = 0;
    proof {
        assert(views(acc@) =~= Seq::<SVal>::empty());
    }
    while i < args.len()
        invariant
            ctx.wf(),
            i <= args@.len(),
            av == views(args@),
            t.answers() == old(t).answers(),
            operands_spec(fuel as nat, av, 0, Seq::empty(), old(ctx)@, runtime_ctx@, old(t).answers(), old(t).position())
                == operands_spec(fuel as nat, av, i as nat, views(acc@), ctx@, runtime_ctx@, t.answers(), t.position()),
        decreases args@.len() - i,
    {
        let ghost acc_v = views(acc@);
        assert(av[i as int] == args@[i as int]@);
        let x = args[i].copy();
        match eval(x, ctx, runtime_ctx, t, fuel) {
            Outcome::Done(v) => {
                acc.push(v);
                proof {
                    assert(views(acc@) =~= acc_v.push(v@));
                }
            },
            Outcome::Fail(e) => {
                return Outcome::Fail(e);
            },
            Outcome::Need(q) => {
                return Outcome::Need(q);
            },
        }
        i += 1;
    }
    Outcome::Done(acc)
}

/// Applies an evaluated head to the unevaluated arguments of a call.
fn apply(oper: Value, args: Vec<Value>, ctx: &mut Context, rt: &RuntimeContext, t: &mut Transcript, fuel: u64) -> (r: Outcome<Value>)
    requires
        old(ctx).wf(),
    ensures
        final(ctx).wf(),
        final(t).answers() == old(t).answers(),
        is_step(res_value(r), final(ctx)@, final(t).position(),
            apply_spec(fuel as nat, oper@, views(args@), old(ctx)@, rt@, old(t).answers(), old(t).position())),
    decreases fuel, 6nat, 0nat,
{
    let ghost ov = oper@;
    match oper {
        Value::Builtin(b) => call_builtin(b, args, ctx, rt, t, fuel),
        Value::Lambda(body) => {
            proof {
                lemma_list_views(body);
            }
            match eval_args(&args, ctx, rt, t, fuel) {
                Outcome::Done(vs) => {
                    if ctx.depth == i32::MAX {
                        return Outcome::Fail(Fault::Overflow(ArithOp::Add));
                    }
                    let ghost env1 = ctx@;
                    let ghost vsv = views(vs@);
                    ctx.push_scope();
                    proof {
                        lemma_list_views(vs);
                    }
                    ctx.set(String::from_str("args"), Value::List(vs));
                    proof {
                        assert(ctx@ =~= env_enter(env1, vsv));
                    }
                    match eval(Value::Eval(body), ctx, rt, t, fuel) {
                        Outcome::Done(v) => {
                            let ghost before = ctx@;
                            ctx.pop_scope();
                            proof {
                                assert(ctx@ == env_pop(before));
                            }
                            Outcome::Done(v)
                        },
                        other => other,
                    }
                },
                Outcome::Fail(e) => Outcome::Fail(e),
                Outcome::Need(q) => Outcome::Need(q),
            }
        },
        Value::FFI(lib, sym, types, ret) => {
            match eval_args(&args, ctx, rt, t, fuel) {
                Outcome::Done(vs) => foreign(lib, sym, &types, ret, &vs, ctx, t),
                Outcome::Fail(e) => Outcome::Fail(e),
                Outcome::Need(q) => Outcome::Need(q),
            }
        },
        other => {
            let mut res: Vec<Value> = Vec::new();
            res.push(other);
            let mut rest = args;
            let ghost restv = views(rest@);
            res.append(&mut rest);
            proof {
                assert(views(res@) =~= seq![ov] + restv);
                lemma_list_views(res);
            }
            Outcome::Done(Value::List(res))
        },
    }
}

/// Whether `s` holds a NUL character.
fn has_nul(s: &String) -> (r: bool)
    ensures
        r == s@.contains('\0'),
{
    let cs = chars_of(s.as_str());
    let mut i: usize = 0;
    while i < cs.len()
        invariant
            i <= cs@.len(),
            cs@ == s@,
            forall|j: int| 0 <= j < i ==> cs@[j] != '\0',
        decreases cs@.len() - i,
    {
        if cs[i] == '\0' {
            return true;
        }
        i += 1;
    }
    false
}

/// The fault a foreign call with these values, argument types and return
/// type meets, in the order the call checks them (the number of values, then
/// each value in turn, then the return type); `None` when the call can be made.
pub fn check_ffi_call(ctypes: &Vec<CType>, values: &Vec<Value>, return_type: CType) -> (r: Option<Fault>)
    ensures
        r is None <==> foreign_call_ok(ctypes@, views(values@), return_type),
        r matches Some(e) ==> ffi_args_spec(ctypes@, views(values@), return_type) == Err::<Seq<SForeignArg>, SFault>(e@),
{
    if ctypes.len() != values.len() {
        return Some(Fault::ArgumentCountMismatch);
    }
    let ghost vv = views(values@);
    let ghost mut acc: Seq<SForeignArg> = Seq::empty();
    let mut i: usize = 0;
    while i < values.len()
        invariant
            i <= values@.len(),
            ctypes@.len() == values@.len(),
            vv == views(values@),
            forall|j: int| 0 <= j < i ==> #[trigger] arg_fits(vv[j], ctypes@[j]),
            marshal_spec(ctypes@, vv, 0, Seq::empty()) == marshal_spec(ctypes@, vv, i as nat, acc),
        decreases values@.len() - i,
    {
        assert(vv[i as int] == values@[i as int]@);
        match (&values[i], ctypes[i]) {
            (Value::Int(_), CType::Int) => {},
            (Value::Float(_), CType::Float) => {},
            (Value::Float(_), CType::Double) => {},
            (Value::Str(s), CType::Str) => {
                if has_nul(s) {
                    assert(!arg_fits(vv[i as int], ctypes@[i as int]));
                    return Some(Fault::NulInString(s.clone()));
                }
            },
            (v, ty) => {
                assert(!arg_fits(vv[i as int], ctypes@[i as int]));
                return Some(Fault::UnsupportedConversion(v.copy(), ty));
            },
        }
        proof {
            acc = acc.push(foreign_arg(vv[i as int], ctypes@[i as int])->Some_0);
        }
        i += 1;
    }
    if return_type == CType::Char {
        return Some(Fault::UnsupportedReturnType);
    }
    None
}

/// The arguments of a foreign call, one for each value, passed as its
/// declared type. The caller has checked the call with [`check_ffi_call`].
pub fn call_ffi_function(ctypes: &Vec<CType>, values: &Vec<Value>, return_type: CType) -> (r: Vec<ForeignArg>)
    requires
        foreign_call_ok(ctypes@, views(values@), return_type),
    ensures
        r@.len() == values@.len(),
        forall|i: int| 0 <= i < r@.len() ==> Some(#[trigger] r@[i]@) == foreign_arg(values@[i]@, ctypes@[i]),
        ffi_args_spec(ctypes@, views(values@), return_type) == Ok::<Seq<SForeignArg>, SFault>(Seq::new(r@.len(), |i: int| r@[i]@)),
{
    let ghost vv = views(values@);
    let mut out: Vec<ForeignArg> = Vec::new();
    let mut i: usize = 0;
    assert(Seq::new(out@.len(), |j: int| out@[j]@) =~= Seq::<SForeignArg>::empty());
    while i < values.len()
        invariant
            i <= values@.len(),
            out@.len() == i,
            ctypes@.len() == values@.len(),
            vv == views(values@),
            foreign_call_ok(ctypes@, vv, return_type),
            forall|j: int| 0 <= j < i ==> Some(#[trigger] out@[j]@) == foreign_arg(values@[j]@, ctypes@[j]),
            marshal_spec(ctypes@, vv, 0, Seq::empty()) == marshal_spec(ctypes@, vv, i as nat, Seq::new(out@.len(), |j: int| out@[j]@)),
        decreases values@.len() - i,
    {
        let ghost before = Seq::new(out@.len(), |j: int| out@[j]@);
        assert(vv[i as int] == values@[i as int]@);
        assert(arg_fits(vv[i as int], ctypes@[i as int]));
        let a = match (&values[i], ctypes[i]) {
            (Value::Int(x), CType::Int) => ForeignArg::Int(*x),
            (Value::Float(b), CType::Float) => ForeignArg::Float(*b),
            (Value::Float(b), CType::Double) => ForeignArg::Double(*b),
            (Value::Str(s), _) => ForeignArg::Str(s.clone()),
            (Value::Int(x), _) => ForeignArg::Int(*x),
            (Value::Float(b), _) => ForeignArg::Double(*b),
            (_, _) => ForeignArg::Int(0),
        };
        out.push(a);
        proof {
            assert(Seq::new(out@.len(), |j: int| out@[j]@) =~= before.push(a@));
        }
        i += 1;
    }
    proof {
        assert(views(values@).len() == values@.len());
    }
    out
}

/// Calls a foreign function through the host: finds the symbol, checks the
/// arguments and the return type, then makes the call.
fn foreign(lib: String, sym: String, types: &Vec<CType>, ret: CType, vs: &Vec<Value>, ctx: &Context, t: &mut Transcript) -> (r: Outcome<Value>)
    ensures
        final(t).answers() == old(t).answers(),
        is_step(res_value(r), ctx@, final(t).position(),
            foreign_spec(lib@, sym@, types@, ret, views(vs@), ctx@, old(t).answers(), old(t).position())),
{
    match t.next_reply() {
        None => {
            return Outcome::Need(Request::OpenForeign(lib, sym));
        },
        Some(Reply::Unit) => {},
        Some(_) => {
            return Outcome::Fail(Fault::UnexpectedReply);
        },
    }
    if let Some(e) = check_ffi_call(types, vs, ret) {
        return Outcome::Fail(e);
    }
    let args = call_ffi_function(types, vs, ret);
    match t.next_reply() {
        None => Outcome::Need(Request::CallForeign(ForeignCall { library: lib, symbol: sym, args, ret })),
        Some(reply) => {
            match (ret, reply) {
                (CType::Int, Reply::Int(i)) => Outcome::Done(Value::Int(i)),
                (CType::Float, Reply::Bits(b)) => Outcome::Done(Value::Float(b)),
                (CType::Double, Reply::Bits(b)) => Outcome::Done(Value::Float(b)),
                (CType::Str, Reply::Text(s)) => Outcome::Done(Value::Str(s)),
                _ => Outcome::Fail(Fault::UnexpectedReply),
            }
        },
    }
}

/// Reports a source error on standard error; at the prompt the result is an
/// empty list, otherwise the program is to exit with status 1.
fn report(msg: String, rt: &RuntimeContext, ctx: &Context, t: &mut Transcript) -> (r: Outcome<Value>)
    ensures
        final(t).answers() == old(t).answers(),
        is_step(res_value(r), ctx@, final(t).position(), report_spec(msg@, ctx@, rt@, old(t).answers(), old(t).position())),
{
    match t.next_reply() {
        None => Outcome::Need(Request::ErrorLine(msg)),
        Some(Reply::Unit) => {
            if rt.in_repl {
                let e: Vec<Value> = Vec::new();
                proof {
                    lemma_list_views(e);
                    assert(views(e@) =~= Seq::<SVal>::empty());
                }
                Outcome::Done(Value::List(e))
            } else {
                Outcome::Fail(Fault::Exit(1))
            }
        },
        Some(_) => Outcome::Fail(Fault::UnexpectedReply),
    }
}

fn prefixed(prefix: &str, msg: &String) -> (r: String)
    ensures
        r@ == prefix@ + msg@,
{
    let mut v = chars_of(prefix);
    let mut m = chars_of(msg.as_str());
    v.append(&mut m);
    string_of(v.as_slice())
}

/// Evaluates source text: tokenises it, parses it and evaluates the result.
pub fn eval_str(s: &str, ctx: &mut Context, runtime_ctx: &RuntimeContext, t: &mut Transcript, fuel: u64) -> (r: Outcome<Value>)
    requires
        old(ctx).wf(),
    ensures
        final(ctx).wf(),
        final(t).answers() == old(t).answers(),
        is_step(res_value(r), final(ctx)@, final(t).position(),
            eval_str_spec(fuel as nat, s@, old(ctx)@, runtime_ctx@, old(t).answers(), old(t).position())),
    decreases fuel, 1nat, 0nat,
{
    let toks = match tokenise(s) {
        Ok(toks) => toks,
        Err(msg) => {
            let m = prefixed("tokenising error: ", &msg);
            return report(m, runtime_ctx, ctx, t);
        },
    };
    let ts = toks.as_slice();
    assert(ts@ == toks@);
    match parse_tokens_to_ast(ts, 0, false, false, None, 0, t) {
        Outcome::Done(Ok((ast, _))) => eval(ast, ctx, runtime_ctx, t, fuel),
        Outcome::Done(Err(msg)) => {
            let m = prefixed("parsing error: ", &msg);
            report(m, runtime_ctx, ctx, t)
        },
        Outcome::Fail(e) => Outcome::Fail(e),
        Outcome::Need(q) => Outcome::Need(q),
    }
}

} // verus!
