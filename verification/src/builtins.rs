//! The builtin functions of the language, formatting and equality of values.
use vstd::prelude::*;
use crate::context::{Context, Env, RuntimeContext, SRuntime};
use crate::eval::{eval, eval_str, handle_operands};
use crate::ffi::{CType, ctype_from_name, ctype_named};
use crate::host::{ArithOp, Fault, FloatOp, Outcome, Reply, Request, Res, SFault, Transcript, reply_at};
use crate::semantics::{
    Step, is_step, res_value, res_text, res_bool, relay, builtin_spec, operands_spec, strict_spec, arith_spec,
    float_reply, div_spec, gt_spec, peek_spec, dict_spec, key_index, print_spec, fmt_spec, fmt_vals_spec,
    fmt_one_spec, fmt_items_spec, fmt_entries_spec, text_or_empty, equal_spec, equal_seq_spec, equal_dict_spec,
    ctypes_spec, ffi_decl_spec, ffi_decl_ok, names_ctype, items, runtime_dict, utf8_len, strict_builtin_spec, setq_spec, ifel_spec, inc_spec,
};
use crate::text::{chars_of, string_of, i64_text, int_text};
use crate::value::{Builtin, SVal, Value, views, entry_views, lemma_list_views, lemma_dict_views, truthy};

verus! {

/// The position of the first entry with key `k`.
pub fn find_entry(d: &Vec<(String, Value)>, k: &String) -> (r: Option<usize>)
    ensures
        match r {
            Some(j) => key_index(entry_views(d@), k@, 0) == Some(j as nat) && j < d@.len(),
            None => key_index(entry_views(d@), k@, 0) is None,
        },
{
    let ghost ev = entry_views(d@);
    let mut j: usize = 0;
    while j < d.len()
        invariant
            j <= d@.len(),
            ev == entry_views(d@),
            key_index(ev, k@, 0) == key_index(ev, k@, j as nat),
        decreases d@.len() - j,
    {
        assert(ev[j as int].0 == d@[j as int].0@);
        if d[j].0 == *k {
            return Some(j);
        }
        j += 1;
    }
    None
}

/// Applies a builtin to its unevaluated arguments.
pub fn call_builtin(b: Builtin, args: Vec<Value>, ctx: &mut Context, rt: &RuntimeContext, t: &mut Transcript, fuel: u64) -> (r: Outcome<Value>)
    requires
        old(ctx).wf(),
    ensures
        final(ctx).wf(),
        final(t).answers() == old(t).answers(),
        is_step(res_value(r), final(ctx)@, final(t).position(),
            builtin_spec(fuel as nat, b, views(args@), old(ctx)@, rt@, old(t).answers(), old(t).position())),
    decreases fuel, 5nat, 0nat,
{
    proof {
        lemma_list_arg_views(&args);
    }
    match b {
        Builtin::Setq => {
            let n = args.len();
            if n < 2 {
                Outcome::Fail(Fault::IndexOutOfBounds(n, n))
            } else if !is_atom(&args[0]) {
                Outcome::Fail(Fault::SetqNameNotAtom)
            } else {
                builtin_setq(args, ctx, rt, t, fuel)
            }
        },
        Builtin::Ifel => {
            if args.len() == 0 {
                Outcome::Fail(Fault::IndexOutOfBounds(0, 0))
            } else {
                builtin_ifel(args, ctx, rt, t, fuel)
            }
        },
        Builtin::Inc => {
            if ctx.depth != 0 {
                Outcome::Fail(Fault::IncludeNotGlobal)
            } else if args.len() == 0 {
                Outcome::Fail(Fault::IndexOutOfBounds(0, 0))
            } else {
                builtin_inc(args, ctx, rt, t, fuel)
            }
        },
        Builtin::Ffi => match ffi_decl_fault(&args) {
            Some(e) => Outcome::Fail(e),
            None => Outcome::Done(builtin_ffi(args, ctx, rt)),
        },
        Builtin::RuntimeCtx => builtin_runtime_ctx(args, ctx, rt),
        Builtin::Fmt => builtin_fmt(args, ctx, rt, t, fuel),
        Builtin::Print => builtin_print(args, ctx, rt, t, fuel),
        Builtin::Println => builtin_println(args, ctx, rt, t, fuel),
        _ => strict_builtin(b, args, ctx, rt, t, fuel),
    }
}

proof fn lemma_list_arg_views(args: &Vec<Value>)
    ensures
        forall|i: int| 0 <= i < args@.len() ==> #[trigger] views(args@)[i] == args@[i]@,
{
}

fn is_atom(v: &Value) -> (r: bool)
    ensures
        r == v@ is Atom,
{
    match v {
        Value::Atom(_) => true,
        _ => false,
    }
}

/// A builtin that evaluates all its operands first.
fn strict_builtin(b: Builtin, args: Vec<Value>, ctx: &mut Context, rt: &RuntimeContext, t: &mut Transcript, fuel: u64) -> (r: Outcome<Value>)
    requires
        old(ctx).wf(),
    ensures
        final(ctx).wf(),
        final(t).answers() == old(t).answers(),
        is_step(res_value(r), final(ctx)@, final(t).position(),
            strict_builtin_spec(fuel as nat, b, views(args@), old(ctx)@, rt@, old(t).answers(), old(t).position())),
    decreases fuel, 2nat, 0nat,
{
    match handle_operands(args, ctx, rt, t, fuel) {
        Outcome::Done(vals) => strict(b, &vals, ctx, t),
        Outcome::Fail(e) => Outcome::Fail(e),
        Outcome::Need(q) => Outcome::Need(q),
    }
}

/// `+`: sum of integers or floats, concatenation of strings.
///
/// The operands are evaluated first, so the checks on them come after and
/// cannot be a precondition: fewer than two operands give `IndexOutOfBounds`,
/// operands of other types `TypeError`, and an integer sum outside `i64`
/// `Overflow`. Each fault stands for a point where the program stops with a
/// panic, which the host raises with the matching message.
pub fn builtin_add(args: Vec<Value>, ctx: &mut Context, runtime_ctx: &RuntimeContext, t: &mut Transcript, fuel: u64) -> (r: Outcome<Value>)
    requires
        old(ctx).wf(),
    ensures
        final(ctx).wf(),
        final(t).answers() == old(t).answers(),
        is_step(res_value(r), final(ctx)@, final(t).position(),
            strict_builtin_spec(fuel as nat, Builtin::Add, views(args@), old(ctx)@, runtime_ctx@, old(t).answers(), old(t).position())),
    decreases fuel, 3nat, 0nat,
{
    strict_builtin(Builtin::Add, args, ctx, runtime_ctx, t, fuel)
}

/// `-`: difference of integers or floats.
///
/// A fault in the result stands for a point where the program stops with a
/// panic, which the host raises with the matching message.
pub fn builtin_sub(args: Vec<Value>, ctx: &mut Context, runtime_ctx: &RuntimeContext, t: &mut Transcript, fuel: u64) -> (r: Outcome<Value>)
    requires
        old(ctx).wf(),
    ensures
        final(ctx).wf(),
        final(t).answers() == old(t).answers(),
        is_step(res_value(r), final(ctx)@, final(t).position(),
            strict_builtin_spec(fuel as nat, Builtin::Sub, views(args@), old(ctx)@, runtime_ctx@, old(t).answers(), old(t).position())),
    decreases fuel, 3nat, 0nat,
{
    strict_builtin(Builtin::Sub, args, ctx, runtime_ctx, t, fuel)
}

/// `*`: product of integers or floats.
///
/// A fault in the result stands for a point where the program stops with a
/// panic, which the host raises with the matching message.
pub fn builtin_mul(args: Vec<Value>, ctx: &mut Context, runtime_ctx: &RuntimeContext, t: &mut Transcript, fuel: u64) -> (r: Outcome<Value>)
    requires
        old(ctx).wf(),
    ensures
        final(ctx).wf(),
        final(t).answers() == old(t).answers(),
        is_step(res_value(r), final(ctx)@, final(t).position(),
            strict_builtin_spec(fuel as nat, Builtin::Mul, views(args@), old(ctx)@, runtime_ctx@, old(t).answers(), old(t).position())),
    decreases fuel, 3nat, 0nat,
{
    strict_builtin(Builtin::Mul, args, ctx, runtime_ctx, t, fuel)
}

/// `/`: quotient as a float.
///
/// A fault in the result stands for a point where the program stops with a
/// panic, which the host raises with the matching message.
pub fn builtin_div(args: Vec<Value>, ctx: &mut Context, runtime_ctx: &RuntimeContext, t: &mut Transcript, fuel: u64) -> (r: Outcome<Value>)
    requires
        old(ctx).wf(),
    ensures
        final(ctx).wf(),
        final(t).answers() == old(t).answers(),
        is_step(res_value(r), final(ctx)@, final(t).position(),
            strict_builtin_spec(fuel as nat, Builtin::Div, views(args@), old(ctx)@, runtime_ctx@, old(t).answers(), old(t).position())),
    decreases fuel, 3nat, 0nat,
{
    strict_builtin(Builtin::Div, args, ctx, runtime_ctx, t, fuel)
}

/// `@`: element of a list, character of a string, or entry of a dictionary.
///
/// The operands are evaluated first, so the checks on them come after and
/// cannot be a precondition: a list index out of range gives
/// `IndexOutOfBounds`, a missing character or key `UnwrapNone`, and operands
/// of other types `TypeError`. Each fault stands for a point where the program
/// stops with a panic, which the host raises with the matching message.
pub fn builtin_peek(args: Vec<Value>, ctx: &mut Context, runtime_ctx: &RuntimeContext, t: &mut Transcript, fuel: u64) -> (r: Outcome<Value>)
    requires
        old(ctx).wf(),
    ensures
        final(ctx).wf(),
        final(t).answers() == old(t).answers(),
        is_step(res_value(r), final(ctx)@, final(t).position(),
            strict_builtin_spec(fuel as nat, Builtin::Peek, views(args@), old(ctx)@, runtime_ctx@, old(t).answers(), old(t).position())),
    decreases fuel, 3nat, 0nat,
{
    strict_builtin(Builtin::Peek, args, ctx, runtime_ctx, t, fuel)
}

/// `=`: equality of two values.
///
/// A fault in the result stands for a point where the program stops with a
/// panic, which the host raises with the matching message.
pub fn builtin_eq(args: Vec<Value>, ctx: &mut Context, runtime_ctx: &RuntimeContext, t: &mut Transcript, fuel: u64) -> (r: Outcome<Value>)
    requires
        old(ctx).wf(),
    ensures
        final(ctx).wf(),
        final(t).answers() == old(t).answers(),
        is_step(res_value(r), final(ctx)@, final(t).position(),
            strict_builtin_spec(fuel as nat, Builtin::Eq, views(args@), old(ctx)@, runtime_ctx@, old(t).answers(), old(t).position())),
    decreases fuel, 3nat, 0nat,
{
    strict_builtin(Builtin::Eq, args, ctx, runtime_ctx, t, fuel)
}

/// `>`: comparison of two integers or two floats.
///
/// A fault in the result stands for a point where the program stops with a
/// panic, which the host raises with the matching message.
pub fn builtin_gt(args: Vec<Value>, ctx: &mut Context, runtime_ctx: &RuntimeContext, t: &mut Transcript, fuel: u64) -> (r: Outcome<Value>)
    requires
        old(ctx).wf(),
    ensures
        final(ctx).wf(),
        final(t).answers() == old(t).answers(),
        is_step(res_value(r), final(ctx)@, final(t).position(),
            strict_builtin_spec(fuel as nat, Builtin::Gt, views(args@), old(ctx)@, runtime_ctx@, old(t).answers(), old(t).position())),
    decreases fuel, 3nat, 0nat,
{
    strict_builtin(Builtin::Gt, args, ctx, runtime_ctx, t, fuel)
}

/// `and`: whether both operands are true.
///
/// A fault in the result stands for a point where the program stops with a
/// panic, which the host raises with the matching message.
pub fn builtin_and(args: Vec<Value>, ctx: &mut Context, runtime_ctx: &RuntimeContext, t: &mut Transcript, fuel: u64) -> (r: Outcome<Value>)
    requires
        old(ctx).wf(),
    ensures
        final(ctx).wf(),
        final(t).answers() == old(t).answers(),
        is_step(res_value(r), final(ctx)@, final(t).position(),
            strict_builtin_spec(fuel as nat, Builtin::And, views(args@), old(ctx)@, runtime_ctx@, old(t).answers(), old(t).position())),
    decreases fuel, 3nat, 0nat,
{
    strict_builtin(Builtin::And, args, ctx, runtime_ctx, t, fuel)
}

/// `or`: whether either operand is true.
///
/// A fault in the result stands for a point where the program stops with a
/// panic, which the host raises with the matching message.
pub fn builtin_or(args: Vec<Value>, ctx: &mut Context, runtime_ctx: &RuntimeContext, t: &mut Transcript, fuel: u64) -> (r: Outcome<Value>)
    requires
        old(ctx).wf(),
    ensures
        final(ctx).wf(),
        final(t).answers() == old(t).answers(),
        is_step(res_value(r), final(ctx)@, final(t).position(),
            strict_builtin_spec(fuel as nat, Builtin::Or, views(args@), old(ctx)@, runtime_ctx@, old(t).answers(), old(t).position())),
    decreases fuel, 3nat, 0nat,
{
    strict_builtin(Builtin::Or, args, ctx, runtime_ctx, t, fuel)
}

/// `not`: whether the operand is false.
///
/// A fault in the result stands for a point where the program stops with a
/// panic, which the host raises with the matching message.
pub fn builtin_not(args: Vec<Value>, ctx: &mut Context, runtime_ctx: &RuntimeContext, t: &mut Transcript, fuel: u64) -> (r: Outcome<Value>)
    requires
        old(ctx).wf(),
    ensures
        final(ctx).wf(),
        final(t).answers() == old(t).answers(),
        is_step(res_value(r), final(ctx)@, final(t).position(),
            strict_builtin_spec(fuel as nat, Builtin::Not, views(args@), old(ctx)@, runtime_ctx@, old(t).answers(), old(t).position())),
    decreases fuel, 3nat, 0nat,
{
    strict_builtin(Builtin::Not, args, ctx, runtime_ctx, t, fuel)
}

/// `len`: byte length of a string, or number of elements of a list.
///
/// A fault in the result stands for a point where the program stops with a
/// panic, which the host raises with the matching message.
pub fn builtin_len(args: Vec<Value>, ctx: &mut Context, runtime_ctx: &RuntimeContext, t: &mut Transcript, fuel: u64) -> (r: Outcome<Value>)
    requires
        old(ctx).wf(),
    ensures
        final(ctx).wf(),
        final(t).answers() == old(t).answers(),
        is_step(res_value(r), final(ctx)@, final(t).position(),
            strict_builtin_spec(fuel as nat, Builtin::Len, views(args@), old(ctx)@, runtime_ctx@, old(t).answers(), old(t).position())),
    decreases fuel, 3nat, 0nat,
{
    strict_builtin(Builtin::Len, args, ctx, runtime_ctx, t, fuel)
}

/// `dict`: a dictionary from alternating keys and values.
///
/// A fault in the result stands for a point where the program stops with a
/// panic, which the host raises with the matching message.
pub fn builtin_dict(args: Vec<Value>, ctx: &mut Context, runtime_ctx: &RuntimeContext, t: &mut Transcript, fuel: u64) -> (r: Outcome<Value>)
    requires
        old(ctx).wf(),
    ensures
        final(ctx).wf(),
        final(t).answers() == old(t).answers(),
        is_step(res_value(r), final(ctx)@, final(t).position(),
            strict_builtin_spec(fuel as nat, Builtin::Dict, views(args@), old(ctx)@, runtime_ctx@, old(t).answers(), old(t).position())),
    decreases fuel, 3nat, 0nat,
{
    strict_builtin(Builtin::Dict, args, ctx, runtime_ctx, t, fuel)
}

/// `ret`: wraps the operand so that it ends the enclosing block.
///
/// A fault in the result stands for a point where the program stops with a
/// panic, which the host raises with the matching message.
pub fn builtin_ret(args: Vec<Value>, ctx: &mut Context, runtime_ctx: &RuntimeContext, t: &mut Transcript, fuel: u64) -> (r: Outcome<Value>)
    requires
        old(ctx).wf(),
    ensures
        final(ctx).wf(),
        final(t).answers() == old(t).answers(),
        is_step(res_value(r), final(ctx)@, final(t).position(),
            strict_builtin_spec(fuel as nat, Builtin::Ret, views(args@), old(ctx)@, runtime_ctx@, old(t).answers(), old(t).position())),
    decreases fuel, 3nat, 0nat,
{
    strict_builtin(Builtin::Ret, args, ctx, runtime_ctx, t, fuel)
}

/// The builtins that only look at their evaluated operands.
fn strict(b: Builtin, vals: &Vec<Value>, ctx: &Context, t: &mut Transcript) -> (r: Outcome<Value>)
    ensures
        final(t).answers() == old(t).answers(),
        is_step(res_value(r), ctx@, final(t).position(), strict_spec(b, views(vals@), ctx@, old(t).answers(), old(t).position())),
{
    let ghost vv = views(vals@);
    let n = vals.len();
    match b {
        Builtin::Add => arith_values(ArithOp::Add, vals, ctx, t),
        Builtin::Sub => arith_values(ArithOp::Sub, vals, ctx, t),
        Builtin::Mul => arith_values(ArithOp::Mul, vals, ctx, t),
        Builtin::Div => div_values(vals, ctx, t),
        Builtin::Peek => peek_values(vals, ctx, Ghost(t.position())),
        Builtin::Eq => {
            if n < 2 {
                return Outcome::Fail(Fault::IndexOutOfBounds(n, n));
            }
            match values_equal(&vals[0], &vals[1], t) {
                Outcome::Done(e) => Outcome::Done(Value::Bool(e)),
                Outcome::Fail(e) => Outcome::Fail(e),
                Outcome::Need(q) => Outcome::Need(q),
            }
        },
        Builtin::Gt => gt_values(vals, ctx, t),
        Builtin::And => {
            if n == 0 {
                return Outcome::Fail(Fault::IndexOutOfBounds(0, 0));
            }
            if !vals[0].to_bool() {
                return Outcome::Done(Value::Bool(false));
            }
            if n == 1 {
                return Outcome::Fail(Fault::IndexOutOfBounds(1, 1));
            }
            Outcome::Done(Value::Bool(vals[1].to_bool()))
        },
        Builtin::Or => {
            if n == 0 {
                return Outcome::Fail(Fault::IndexOutOfBounds(0, 0));
            }
            if vals[0].to_bool() {
                return Outcome::Done(Value::Bool(true));
            }
            if n == 1 {
                return Outcome::Fail(Fault::IndexOutOfBounds(1, 1));
            }
            Outcome::Done(Value::Bool(vals[1].to_bool()))
        },
        Builtin::Not => {
            if n == 0 {
                return Outcome::Fail(Fault::IndexOutOfBounds(0, 0));
            }
            Outcome::Done(Value::Bool(!vals[0].to_bool()))
        },
        Builtin::Len => {
            if n == 0 {
                return Outcome::Fail(Fault::IndexOutOfBounds(0, 0));
            }
            match &vals[0] {
                Value::Str(s) => Outcome::Done(Value::Int(s.as_str().len() as i64)),
                Value::List(l) => {
                    proof {
                        lemma_list_views(*l);
                    }
                    Outcome::Done(Value::Int(l.len() as i64))
                },
                _ => Outcome::Fail(Fault::TypeError),
            }
        },
        Builtin::Dict => dict_values(vals, ctx, Ghost(t.position())),
        // `ret`, as in `strict_spec`.
        _ => {
            if n == 0 {
                return Outcome::Fail(Fault::IndexOutOfBounds(0, 0));
            }
            Outcome::Done(Value::Ret(Box::new(vals[0].copy())))
        },
    }
}

fn arith_values(op: ArithOp, vals: &Vec<Value>, ctx: &Context, t: &mut Transcript) -> (r: Outcome<Value>)
    ensures
        final(t).answers() == old(t).answers(),
        is_step(res_value(r), ctx@, final(t).position(), arith_spec(op, views(vals@), ctx@, old(t).answers(), old(t).position())),
{
    let n = vals.len();
    if n < 2 {
        return Outcome::Fail(Fault::IndexOutOfBounds(n, n));
    }
    match (&vals[0], &vals[1]) {
        (Value::Int(a), Value::Int(b)) => {
            let r = match op {
                ArithOp::Add => a.checked_add(*b),
                ArithOp::Sub => a.checked_sub(*b),
                ArithOp::Mul => a.checked_mul(*b),
            };
            match r {
                Some(v) => Outcome::Done(Value::Int(v)),
                None => Outcome::Fail(Fault::Overflow(op)),
            }
        },
        (Value::Float(a), Value::Float(b)) => {
            let fop = match op {
                ArithOp::Add => FloatOp::Add,
                ArithOp::Sub => FloatOp::Sub,
                ArithOp::Mul => FloatOp::Mul,
            };
            float_result(Request::FloatArith(fop, *a, *b), ctx, t)
        },
        (Value::Str(a), Value::Str(b)) => {
            if op == ArithOp::Add {
                let mut v = chars_of(a.as_str());
                let mut w = chars_of(b.as_str());
                v.append(&mut w);
                Outcome::Done(Value::Str(string_of(v.as_slice())))
            } else {
                Outcome::Fail(Fault::TypeError)
            }
        },
        _ => Outcome::Fail(Fault::TypeError),
    }
}

/// A float computed by the host.
fn float_result(req: Request, ctx: &Context, t: &mut Transcript) -> (r: Outcome<Value>)
    ensures
        final(t).answers() == old(t).answers(),
        is_step(res_value(r), ctx@, final(t).position(), float_reply(req@, ctx@, old(t).answers(), old(t).position())),
{
    match t.next_reply() {
        None => Outcome::Need(req),
        Some(Reply::Bits(b)) => Outcome::Done(Value::Float(b)),
        Some(_) => Outcome::Fail(Fault::UnexpectedReply),
    }
}

fn div_values(vals: &Vec<Value>, ctx: &Context, t: &mut Transcript) -> (r: Outcome<Value>)
    ensures
        final(t).answers() == old(t).answers(),
        is_step(res_value(r), ctx@, final(t).position(), div_spec(views(vals@), ctx@, old(t).answers(), old(t).position())),
{
    let n = vals.len();
    if n < 2 {
        return Outcome::Fail(Fault::IndexOutOfBounds(n, n));
    }
    match (&vals[0], &vals[1]) {
        (Value::Int(a), Value::Int(b)) => float_result(Request::IntQuotient(*a, *b), ctx, t),
        (Value::Float(a), Value::Float(b)) => float_result(Request::FloatArith(FloatOp::Div, *a, *b), ctx, t),
        _ => Outcome::Fail(Fault::TypeError),
    }
}

fn gt_values(vals: &Vec<Value>, ctx: &Context, t: &mut Transcript) -> (r: Outcome<Value>)
    ensures
        final(t).answers() == old(t).answers(),
        is_step(res_value(r), ctx@, final(t).position(), gt_spec(views(vals@), ctx@, old(t).answers(), old(t).position())),
{
    let n = vals.len();
    if n < 2 {
        return Outcome::Fail(Fault::IndexOutOfBounds(n, n));
    }
    match (&vals[0], &vals[1]) {
        (Value::Int(a), Value::Int(b)) => Outcome::Done(Value::Bool(*a > *b)),
        (Value::Float(a), Value::Float(b)) => {
            match t.next_reply() {
                None => Outcome::Need(Request::FloatGreater(*a, *b)),
                Some(Reply::Flag(x)) => Outcome::Done(Value::Bool(x)),
                Some(_) => Outcome::Fail(Fault::UnexpectedReply),
            }
        },
        (x, y) => Outcome::Fail(Fault::InvalidComparison(x.copy(), y.copy())),
    }
}

fn peek_values(vals: &Vec<Value>, ctx: &Context, Ghost(pos): Ghost<nat>) -> (r: Outcome<Value>)
    ensures
        is_step(res_value(r), ctx@, pos, peek_spec(views(vals@), ctx@, pos)),
{
    let n = vals.len();
    if n < 2 {
        return Outcome::Fail(Fault::IndexOutOfBounds(n, n));
    }
    match (&vals[0], &vals[1]) {
        (Value::List(a), Value::Int(b)) => {
            proof {
                lemma_list_views(*a);
            }
            let idx = *b as usize;
            if idx < a.len() {
                Outcome::Done(a[idx].copy())
            } else {
                Outcome::Fail(Fault::IndexOutOfBounds(a.len(), idx))
            }
        },
        (Value::Str(a), Value::Int(b)) => {
            let idx = *b as usize;
            let cs = chars_of(a.as_str());
            if idx < cs.len() {
                let mut one: Vec<char> = Vec::new();
                one.push(cs[idx]);
                proof {
                    assert(one@ =~= seq![a@[idx as int]]);
                }
                Outcome::Done(Value::Str(string_of(one.as_slice())))
            } else {
                Outcome::Fail(Fault::UnwrapNone)
            }
        },
        (Value::Dict(d), Value::Str(k)) => {
            proof {
                lemma_dict_views(*d);
            }
            match find_entry(d, k) {
                Some(j) => Outcome::Done(d[j].1.copy()),
                None => Outcome::Fail(Fault::UnwrapNone),
            }
        },
        _ => Outcome::Fail(Fault::TypeError),
    }
}

fn dict_values(vals: &Vec<Value>, ctx: &Context, Ghost(pos): Ghost<nat>) -> (r: Outcome<Value>)
    ensures
        is_step(res_value(r), ctx@, pos, dict_spec(views(vals@), 0, Seq::empty(), Seq::empty(), ctx@, pos)),
{
    let ghost vv = views(vals@);
    let mut acc: Vec<(String, Value)> = Vec::new();
    let mut key = String::new();
    let mut i: usize = 0;
    proof {
        assert(entry_views(acc@) =~= Seq::<(Seq<char>, SVal)>::empty());
    }
    while i < vals.len()
        invariant
            i <= vals@.len(),
            vv == views(vals@),
            dict_spec(vv, 0, Seq::empty(), Seq::empty(), ctx@, pos) == dict_spec(vv, i as nat, key@, entry_views(acc@), ctx@, pos),
        decreases vals@.len() - i,
    {
        assert(vv[i as int] == vals@[i as int]@);
        if i % 2 == 0 {
            match &vals[i] {
                Value::Str(k) => {
                    key = k.clone();
                },
                _ => {
                    return Outcome::Fail(Fault::DictKeyNotString);
                },
            }
        } else {
            let ghost before = entry_views(acc@);
            let v = vals[i].copy();
            match find_entry(&acc, &key) {
                Some(j) => {
                    let k2 = key.clone();
                    let ghost vv2 = v@;
                    acc.set(j, (k2, v));
                    proof {
                        assert(entry_views(acc@) =~= before.update(j as int, (key@, vv2)));
                    }
                },
                None => {
                    let k2 = key.clone();
                    let ghost vv2 = v@;
                    acc.push((k2, v));
                    proof {
                        assert(entry_views(acc@) =~= before.push((key@, vv2)));
                    }
                },
            }
        }
        i += 1;
    }
    proof {
        lemma_dict_views(acc);
    }
    Outcome::Done(Value::Dict(acc))
}

/// `setq`: binds an atom to the value of an expression in the innermost scope.
pub fn builtin_setq(args: Vec<Value>, ctx: &mut Context, runtime_ctx: &RuntimeContext, t: &mut Transcript, fuel: u64) -> (r: Outcome<Value>)
    requires
        old(ctx).wf(),
        args@.len() >= 2,
        args@[0] is Atom,
    ensures
        final(ctx).wf(),
        final(t).answers() == old(t).answers(),
        is_step(res_value(r), final(ctx)@, final(t).position(),
            setq_spec(fuel as nat, views(args@), old(ctx)@, runtime_ctx@, old(t).answers(), old(t).position())),
    decreases fuel, 2nat, 0nat,
{
    let ghost av = views(args@);
    assert(av[0] == args@[0]@ && av[1] == args@[1]@);
    match &args[0] {
        Value::Atom(name) => {
            let e = args[1].copy();
            match eval(e, ctx, runtime_ctx, t, fuel) {
                Outcome::Done(v) => {
                    let stored = v.copy();
                    ctx.set(name.clone(), stored);
                    Outcome::Done(v)
                },
                other => other,
            }
        },
        _ => Outcome::Fail(Fault::SetqNameNotAtom),
    }
}

/// `ifel`: evaluates the second or third argument as the first is `true` or
/// `false`.
pub fn builtin_ifel(args: Vec<Value>, ctx: &mut Context, runtime_ctx: &RuntimeContext, t: &mut Transcript, fuel: u64) -> (r: Outcome<Value>)
    requires
        old(ctx).wf(),
        args@.len() >= 1,
    ensures
        final(ctx).wf(),
        final(t).answers() == old(t).answers(),
        is_step(res_value(r), final(ctx)@, final(t).position(),
            ifel_spec(fuel as nat, views(args@), old(ctx)@, runtime_ctx@, old(t).answers(), old(t).position())),
    decreases fuel, 2nat, 0nat,
{
    let ghost av = views(args@);
    let n = args.len();
    assert(av[0] == args@[0]@);
    let c = args[0].copy();
    match eval(c, ctx, runtime_ctx, t, fuel) {
        Outcome::Done(Value::Bool(true)) => {
            if n < 2 {
                return Outcome::Fail(Fault::IndexOutOfBounds(n, 1));
            }
            assert(av[1] == args@[1]@);
            eval(args[1].copy(), ctx, runtime_ctx, t, fuel)
        },
        Outcome::Done(Value::Bool(false)) => {
            if n < 3 {
                return Outcome::Fail(Fault::IndexOutOfBounds(n, 2));
            }
            assert(av[2] == args@[2]@);
            eval(args[2].copy(), ctx, runtime_ctx, t, fuel)
        },
        Outcome::Done(_) => Outcome::Fail(Fault::ConditionNotBool),
        other => other,
    }
}

fn copy_strings(v: &Vec<String>) -> (r: Vec<String>)
    ensures
        r@ == v@,
{
    let mut out: Vec<String> = Vec::new();
    let mut i: usize = 0;
    while i < v.len()
        invariant
            i <= v@.len(),
            out@ =~= v@.take(i as int),
        decreases v@.len() - i,
    {
        out.push(v[i].clone());
        i += 1;
    }
    proof {
        assert(v@.take(v@.len() as int) =~= v@);
    }
    out
}

/// `inc`: evaluates the source file named by the argument; only in the
/// global scope.
pub fn builtin_inc(args: Vec<Value>, ctx: &mut Context, runtime_ctx: &RuntimeContext, t: &mut Transcript, fuel: u64) -> (r: Outcome<Value>)
    requires
        old(ctx).wf(),
        old(ctx).depth == 0,
        args@.len() >= 1,
    ensures
        final(ctx).wf(),
        final(t).answers() == old(t).answers(),
        is_step(res_value(r), final(ctx)@, final(t).position(),
            inc_spec(fuel as nat, views(args@), old(ctx)@, runtime_ctx@, old(t).answers(), old(t).position())),
    decreases fuel, 2nat, 0nat,
{
    let ghost av = views(args@);
    assert(av[0] == args@[0]@);
    match eval(args[0].copy(), ctx, runtime_ctx, t, fuel) {
        Outcome::Done(Value::Str(name)) => {
            match t.next_reply() {
                None => Outcome::Need(Request::ReadFile(name)),
                Some(Reply::Text(contents)) => {
                    let inner = RuntimeContext {
                        in_repl: runtime_ctx.in_repl,
                        in_include: true,
                        argv: copy_strings(&runtime_ctx.argv),
                    };
                    proof {
                        assert(inner@ == SRuntime { in_repl: runtime_ctx@.in_repl, in_include: true, argv: runtime_ctx@.argv });
                    }
                    eval_str(contents.as_str(), ctx, &inner, t, fuel)
                },
                Some(Reply::Missing) => Outcome::Fail(Fault::IncludeUnreadable(name)),
                Some(_) => Outcome::Fail(Fault::UnexpectedReply),
            }
        },
        Outcome::Done(_) => Outcome::Fail(Fault::IncludeNameNotString),
        other => other,
    }
}

proof fn lemma_ctypes_ok(tl: Seq<SVal>, i: nat, acc: Seq<CType>)
    requires
        i <= tl.len(),
    ensures
        ctypes_spec(tl, i, acc) is Ok <==> forall|j: int| i <= j < tl.len() ==> #[trigger] names_ctype(tl[j]),
    decreases tl.len() - i,
{
    if i < tl.len() {
        match tl[i as int] {
            SVal::Atom(a) => match ctype_named(a) {
                Some(ty) => {
                    lemma_ctypes_ok(tl, i + 1, acc.push(ty));
                    assert(names_ctype(tl[i as int]));
                    if forall|j: int| i + 1 <= j < tl.len() ==> #[trigger] names_ctype(tl[j]) {
                        assert forall|j: int| i <= j < tl.len() implies #[trigger] names_ctype(tl[j]) by {
                            if j > i {
                                assert(names_ctype(tl[j]));
                            }
                        }
                    }
                },
                None => {
                    assert(!names_ctype(tl[i as int]));
                },
            },
            _ => {
                assert(!names_ctype(tl[i as int]));
            },
        }
    }
}

proof fn lemma_ffi_decl_ok(av: Seq<SVal>)
    ensures
        ffi_decl_ok(av) <==> ffi_decl_spec(av) is Ok,
{
    if av.len() >= 3 {
        match av[2] {
            SVal::List(tl) => {
                lemma_ctypes_ok(tl, 0, Seq::empty());
                assert(items(av[2]) == tl);
            },
            SVal::Eval(tl) => {
                lemma_ctypes_ok(tl, 0, Seq::empty());
                assert(items(av[2]) == tl);
            },
            _ => {},
        }
        if av.len() >= 4 {
            assert(names_ctype(av[3]) <==> (av[3] is Atom && ctype_named(av[3]->Atom_0) is Some));
        }
    }
}

fn ctypes_of(tl: &Vec<Value>) -> (r: Result<Vec<CType>, Fault>)
    ensures
        match r {
            Ok(ts) => ctypes_spec(views(tl@), 0, Seq::empty()) == Ok::<_, SFault>(ts@),
            Err(e) => ctypes_spec(views(tl@), 0, Seq::empty()) == Err::<Seq<CType>, _>(e@),
        },
{
    let ghost tv = views(tl@);
    let mut out: Vec<CType> = Vec::new();
    let mut i: usize = 0;
    while i < tl.len()
        invariant
            i <= tl@.len(),
            tv == views(tl@),
            ctypes_spec(tv, 0, Seq::empty()) == ctypes_spec(tv, i as nat, out@),
        decreases tl@.len() - i,
    {
        assert(tv[i as int] == tl@[i as int]@);
        if let Value::Atom(a) = &tl[i] {
            let name = tl[i].unpack_atom();
            match ctype_from_name(name.as_str()) {
                Some(ty) => {
                    out.push(ty);
                },
                None => {
                    return Err(Fault::UnknownCType(name));
                },
            }
        } else {
            return Err(Fault::UnpackNonAtom);
        }
        i += 1;
    }
    Ok(out)
}

/// The declaration `ffi` makes of its unevaluated arguments, or the fault for
/// the first thing wrong with them.
fn ffi_declaration(args: &Vec<Value>) -> (r: Result<Value, Fault>)
    ensures
        match r {
            Ok(v) => ffi_decl_spec(views(args@)) == Ok::<SVal, SFault>(v@),
            Err(e) => ffi_decl_spec(views(args@)) == Err::<SVal, SFault>(e@),
        },
{
    let ghost av = views(args@);
    let n = args.len();
    if n < 3 {
        return Err(Fault::IndexOutOfBounds(n, 2));
    }
    assert(av[0] == args@[0]@ && av[1] == args@[1]@ && av[2] == args@[2]@);
    let types = match &args[2] {
        Value::List(tl) | Value::Eval(tl) => {
            proof {
                lemma_list_views(*tl);
            }
            match ctypes_of(tl) {
                Ok(ts) => ts,
                Err(e) => {
                    return Err(e);
                },
            }
        },
        _ => {
            return Err(Fault::FfiNeedsArgumentList);
        },
    };
    match &args[0] {
        Value::Str(lib) => {
            match &args[1] {
                Value::Str(sym) => {
                    if n < 4 {
                        return Err(Fault::IndexOutOfBounds(n, 3));
                    }
                    assert(av[3] == args@[3]@);
                    match &args[3] {
                        Value::Atom(ret) => match ctype_from_name(ret.as_str()) {
                            Some(rt) => Ok(Value::FFI(lib.clone(), sym.clone(), types, rt)),
                            None => Err(Fault::UnknownCType(ret.clone())),
                        },
                        _ => Err(Fault::FfiNeedsReturnType),
                    }
                },
                _ => Err(Fault::FfiNeedsFunctionName),
            }
        },
        _ => Err(Fault::FfiNeedsFileName),
    }
}

/// The fault `ffi` meets on these unevaluated arguments, checked in the order
/// it checks them; `None` when they declare a foreign function.
pub fn ffi_decl_fault(args: &Vec<Value>) -> (r: Option<Fault>)
    ensures
        r is None <==> ffi_decl_ok(views(args@)),
        r matches Some(e) ==> ffi_decl_spec(views(args@)) == Err::<SVal, SFault>(e@),
{
    proof {
        lemma_ffi_decl_ok(views(args@));
    }
    match ffi_declaration(args) {
        Ok(_) => None,
        Err(e) => Some(e),
    }
}

/// `ffi`: the foreign function declared by a library name, a function name,
/// a list of argument types and a return type, none of them evaluated.
pub fn builtin_ffi(args: Vec<Value>, ctx: &mut Context, runtime_ctx: &RuntimeContext) -> (r: Value)
    requires
        old(ctx).wf(),
        ffi_decl_ok(views(args@)),
    ensures
        *final(ctx) == *old(ctx),
        ffi_decl_spec(views(args@)) == Ok::<SVal, SFault>(r@),
{
    proof {
        lemma_ffi_decl_ok(views(args@));
    }
    ffi_declaration(&args).unwrap()
}

/// `runtime_ctx`: a dictionary of `in_repl`, `in_include` and `argv`.
pub fn builtin_runtime_ctx(args: Vec<Value>, ctx: &mut Context, runtime_ctx: &RuntimeContext) -> (r: Outcome<Value>)
    ensures
        *final(ctx) == *old(ctx),
        r matches Outcome::Done(v) && v@ == runtime_dict(runtime_ctx@),
{
    let mut argv: Vec<Value> = Vec::new();
    let mut i: usize = 0;
    while i < runtime_ctx.argv.len()
        invariant
            i <= runtime_ctx.argv@.len(),
            views(argv@) =~= Seq::new(i as nat, |j: int| SVal::Str(runtime_ctx.argv@[j]@)),
        decreases runtime_ctx.argv@.len() - i,
    {
        let ghost before = views(argv@);
        argv.push(Value::Str(runtime_ctx.argv[i].clone()));
        proof {
            assert(views(argv@) =~= before.push(SVal::Str(runtime_ctx.argv@[i as int]@)));
        }
        i += 1;
    }
    proof {
        lemma_list_views(argv);
    }
    let mut d: Vec<(String, Value)> = Vec::new();
    d.push((String::from_str("in_repl"), Value::Bool(runtime_ctx.in_repl)));
    d.push((String::from_str("in_include"), Value::Bool(runtime_ctx.in_include)));
    let ghost av = Value::List(argv)@;
    d.push((String::from_str("argv"), Value::List(argv)));
    proof {
        lemma_dict_views(d);
        assert(views(argv@) =~= runtime_dict(runtime_ctx@)->Dict_0[2].1->List_0);
        assert(entry_views(d@) =~= runtime_dict(runtime_ctx@)->Dict_0);
    }
    Outcome::Done(Value::Dict(d))
}

/// `print`: writes the formatted arguments and yields their text.
pub fn builtin_print(args: Vec<Value>, ctx: &mut Context, runtime_ctx: &RuntimeContext, t: &mut Transcript, fuel: u64) -> (r: Outcome<Value>)
    requires
        old(ctx).wf(),
    ensures
        final(ctx).wf(),
        final(t).answers() == old(t).answers(),
        is_step(res_value(r), final(ctx)@, final(t).position(),
            print_spec(fuel as nat, false, views(args@), old(ctx)@, runtime_ctx@, old(t).answers(), old(t).position())),
    decreases fuel, 4nat, 0nat,
{
    print_with(false, args, ctx, runtime_ctx, t, fuel)
}

/// `println`: writes the formatted arguments and a newline, and yields their text.
pub fn builtin_println(args: Vec<Value>, ctx: &mut Context, runtime_ctx: &RuntimeContext, t: &mut Transcript, fuel: u64) -> (r: Outcome<Value>)
    requires
        old(ctx).wf(),
    ensures
        final(ctx).wf(),
        final(t).answers() == old(t).answers(),
        is_step(res_value(r), final(ctx)@, final(t).position(),
            print_spec(fuel as nat, true, views(args@), old(ctx)@, runtime_ctx@, old(t).answers(), old(t).position())),
    decreases fuel, 4nat, 0nat,
{
    print_with(true, args, ctx, runtime_ctx, t, fuel)
}

fn print_with(line: bool, args: Vec<Value>, ctx: &mut Context, rt: &RuntimeContext, t: &mut Transcript, fuel: u64) -> (r: Outcome<Value>)
    requires
        old(ctx).wf(),
    ensures
        final(ctx).wf(),
        final(t).answers() == old(t).answers(),
        is_step(res_value(r), final(ctx)@, final(t).position(),
            print_spec(fuel as nat, line, views(args@), old(ctx)@, rt@, old(t).answers(), old(t).position())),
    decreases fuel, 3nat, 0nat,
{
    match builtin_fmt(args, ctx, rt, t, fuel) {
        Outcome::Done(Value::Str(s)) => {
            match t.next_reply() {
                None => {
                    if line {
                        Outcome::Need(Request::PrintLine(s))
                    } else {
                        Outcome::Need(Request::Print(s))
                    }
                },
                Some(Reply::Unit) => Outcome::Done(Value::Str(s)),
                Some(_) => Outcome::Fail(Fault::UnexpectedReply),
            }
        },
        other => other,
    }
}

/// `fmt`: the texts of the evaluated arguments, one after another.
#[verifier::loop_isolation(false)]
pub fn builtin_fmt(args: Vec<Value>, ctx: &mut Context, runtime_ctx: &RuntimeContext, t: &mut Transcript, fuel: u64) -> (r: Outcome<Value>)
    requires
        old(ctx).wf(),
    ensures
        final(ctx).wf(),
        final(t).answers() == old(t).answers(),
        is_step(res_value(r), final(ctx)@, final(t).position(),
            fmt_spec(fuel as nat, views(args@), old(ctx)@, runtime_ctx@, old(t).answers(), old(t).position())),
        r matches Outcome::Done(v) ==> v is Str,
    decreases fuel, 2nat, 0nat,
{
    let vals = match handle_operands(args, ctx, runtime_ctx, t, fuel) {
        Outcome::Done(vals) => vals,
        Outcome::Fail(e) => {
            return Outcome::Fail(e);
        },
        Outcome::Need(q) => {
            return Outcome::Need(q);
        },
    };
    let ghost vv = views(vals@);
    let ghost env1 = ctx@;
    let ghost pos1 = t.position();
    let mut acc: Vec<char> = Vec::new();
    let mut i: usize = 0;
    while i < vals.len()
        invariant
            ctx.wf(),
            i <= vals@.len(),
            vv == views(vals@),
            t.answers() == old(t).answers(),
            fmt_vals_spec(fuel as nat, vv, 0, Seq::empty(), env1, runtime_ctx@, old(t).answers(), pos1)
                == fmt_vals_spec(fuel as nat, vv, i as nat, acc@, ctx@, runtime_ctx@, t.answers(), t.position()),
        decreases vals@.len() - i,
    {
        assert(vv[i as int] == vals@[i as int]@);
        match fmt_one(&vals[i], ctx, runtime_ctx, t, fuel) {
            Outcome::Done(piece) => {
                let mut p = piece;
                acc.append(&mut p);
            },
            Outcome::Fail(e) => {
                return Outcome::Fail(e);
            },
            Outcome::Need(q) => {
                return Outcome::Need(q);
            },
        }
        i += 1;
    }
    Outcome::Done(Value::Str(string_of(acc.as_slice())))
}

fn text_chars(v: &Value) -> (r: Vec<char>)
    ensures
        r@ == text_or_empty(v@),
{
    match v {
        Value::Str(s) => chars_of(s.as_str()),
        _ => Vec::new(),
    }
}

/// Formats one value, evaluating the elements of lists and the values of
/// dictionaries again first.
fn single(v: Value) -> (r: Vec<Value>)
    ensures
        views(r@) == seq![v@],
{
    let ghost vv = v@;
    let mut one: Vec<Value> = Vec::new();
    one.push(v);
    proof {
        assert(views(one@) =~= seq![vv]);
    }
    one
}

/// The text of one value.
#[verifier::loop_isolation(false)]
fn fmt_one(x: &Value, ctx: &mut Context, rt: &RuntimeContext, t: &mut Transcript, fuel: u64) -> (r: Outcome<Vec<char>>)
    requires
        old(ctx).wf(),
    ensures
        final(ctx).wf(),
        final(t).answers() == old(t).answers(),
        is_step(res_text(r), final(ctx)@, final(t).position(),
            fmt_one_spec(fuel as nat, x@, old(ctx)@, rt@, old(t).answers(), old(t).position())),
    decreases fuel, 0nat, 0nat,
{
    match x {
        Value::Int(i) => Outcome::Done(i64_text(*i)),
        Value::Float(b) => {
            match t.next_reply() {
                None => Outcome::Need(Request::FloatText(*b)),
                Some(Reply::Text(s)) => Outcome::Done(chars_of(s.as_str())),
                Some(_) => Outcome::Fail(Fault::UnexpectedReply),
            }
        },
        Value::Str(s) => Outcome::Done(chars_of(s.as_str())),
        Value::Bool(b) => {
            if *b {
                Outcome::Done(chars_of("true"))
            } else {
                Outcome::Done(chars_of("false"))
            }
        },
        Value::Atom(a) => {
            let mut v = chars_of(a.as_str());
            let mut q = chars_of("?");
            v.append(&mut q);
            Outcome::Done(v)
        },
        Value::UnresolvedAtom(a) => {
            let mut v = chars_of("?");
            let mut m = chars_of(a.as_str());
            v.append(&mut m);
            let mut q = chars_of("?");
            v.append(&mut q);
            Outcome::Done(v)
        },
        Value::List(l) | Value::Eval(l) => {
            proof {
                lemma_list_views(*l);
            }
            if fuel == 0 {
                return Outcome::Fail(Fault::OutOfFuel);
            }
            let g = fuel - 1;
            let ghost lv = views(l@);
            let ghost env0 = ctx@;
            let ghost pos0 = t.position();
            let mut acc: Vec<char> = Vec::new();
            let mut i: usize = 0;
            while i < l.len()
                invariant
                    ctx.wf(),
                    i <= l@.len(),
                    lv == views(l@),
                    t.answers() == old(t).answers(),
                    fmt_items_spec(g as nat, lv, 0, Seq::empty(), env0, rt@, old(t).answers(), pos0)
                        == fmt_items_spec(g as nat, lv, i as nat, acc@, ctx@, rt@, t.answers(), t.position()),
                decreases l@.len() - i,
            {
                assert(lv[i as int] == l@[i as int]@);
                let one = single(l[i].copy());
                match builtin_fmt(one, ctx, rt, t, g) {
                    Outcome::Done(r) => {
                        if i > 0 {
                            let mut sp = chars_of(" ");
                            acc.append(&mut sp);
                        }
                        let mut p = text_chars(&r);
                        acc.append(&mut p);
                    },
                    Outcome::Fail(e) => {
                        return Outcome::Fail(e);
                    },
                    Outcome::Need(q) => {
                        return Outcome::Need(q);
                    },
                }
                i += 1;
            }
            let mut v = chars_of("(");
            v.append(&mut acc);
            let mut c = chars_of(")");
            v.append(&mut c);
            Outcome::Done(v)
        },
        Value::Dict(d) => {
            proof {
                lemma_dict_views(*d);
            }
            if fuel == 0 {
                return Outcome::Fail(Fault::OutOfFuel);
            }
            let g = fuel - 1;
            let ghost dv = entry_views(d@);
            let ghost env0 = ctx@;
            let ghost pos0 = t.position();
            let mut acc: Vec<char> = Vec::new();
            let mut i: usize = 0;
            while i < d.len()
                invariant
                    ctx.wf(),
                    i <= d@.len(),
                    dv == entry_views(d@),
                    t.answers() == old(t).answers(),
                    fmt_entries_spec(g as nat, dv, 0, Seq::empty(), env0, rt@, old(t).answers(), pos0)
                        == fmt_entries_spec(g as nat, dv, i as nat, acc@, ctx@, rt@, t.answers(), t.position()),
                decreases d@.len() - i,
            {
                assert(dv[i as int] == (d@[i as int].0@, d@[i as int].1@));
                let one = single(d[i].1.copy());
                match builtin_fmt(one, ctx, rt, t, g) {
                    Outcome::Done(r) => {
                        let mut k = chars_of(d[i].0.as_str());
                        acc.append(&mut k);
                        let mut sep = chars_of(": ");
                        acc.append(&mut sep);
                        let mut p = text_chars(&r);
                        acc.append(&mut p);
                        let blen = match &r {
                            Value::Str(s) => s.as_str().len(),
                            _ => 0,
                        };
                        if i + 1 < blen {
                            let mut comma = chars_of(", ");
                            acc.append(&mut comma);
                        }
                    },
                    Outcome::Fail(e) => {
                        return Outcome::Fail(e);
                    },
                    Outcome::Need(q) => {
                        return Outcome::Need(q);
                    },
                }
                i += 1;
            }
            Outcome::Done(acc)
        },
        Value::Lambda(_) => Outcome::Done(chars_of("<Lambda>")),
        Value::Builtin(_) => Outcome::Done(chars_of("<Builtin>")),
        Value::FFI(_, _, _, _) => Outcome::Done(chars_of("<FFI>")),
        Value::Ret(v) => {
            if fuel == 0 {
                return Outcome::Fail(Fault::OutOfFuel);
            }
            let one = single((**v).copy());
            match builtin_fmt(one, ctx, rt, t, fuel - 1) {
                Outcome::Done(r) => Outcome::Done(text_chars(&r)),
                Outcome::Fail(e) => Outcome::Fail(e),
                Outcome::Need(q) => Outcome::Need(q),
            }
        },
    }
}

/// Whether two values are equal; floats are compared by the host.
pub fn values_equal(a: &Value, b: &Value, t: &mut Transcript) -> (r: Outcome<bool>)
    ensures
        final(t).answers() == old(t).answers(),
        (res_bool(r), final(t).position()) == equal_spec(a@, b@, old(t).answers(), old(t).position()),
    decreases a, 0int,
{
    match (a, b) {
        (Value::Int(x), Value::Int(y)) => Outcome::Done(*x == *y),
        (Value::Float(x), Value::Float(y)) => {
            match t.next_reply() {
                None => Outcome::Need(Request::FloatEqual(*x, *y)),
                Some(Reply::Flag(e)) => Outcome::Done(e),
                Some(_) => Outcome::Fail(Fault::UnexpectedReply),
            }
        },
        (Value::Str(x), Value::Str(y)) => Outcome::Done(*x == *y),
        (Value::Atom(x), Value::Atom(y)) => Outcome::Done(*x == *y),
        (Value::UnresolvedAtom(x), Value::UnresolvedAtom(y)) => Outcome::Done(*x == *y),
        (Value::Bool(x), Value::Bool(y)) => Outcome::Done(*x == *y),
        (Value::List(x), Value::List(y)) | (Value::Eval(x), Value::Eval(y)) | (Value::Lambda(x), Value::Lambda(y)) => {
            proof {
                lemma_list_views(*x);
                lemma_list_views(*y);
            }
            seqs_equal(x, y, t)
        },
        (Value::FFI(a1, a2, a3, a4), Value::FFI(b1, b2, b3, b4)) => {
            let e = *a1 == *b1 && *a2 == *b2 && ctypes_equal(a3, b3) && *a4 == *b4;
            Outcome::Done(e)
        },
        (Value::Dict(x), Value::Dict(y)) => {
            proof {
                lemma_dict_views(*x);
                lemma_dict_views(*y);
            }
            if x.len() != y.len() {
                Outcome::Done(false)
            } else {
                dicts_equal(x, y, t)
            }
        },
        (Value::Builtin(x), Value::Builtin(y)) => Outcome::Done(*x == *y),
        (Value::Ret(x), Value::Ret(y)) => values_equal(&**x, &**y, t),
        _ => Outcome::Done(false),
    }
}

fn ctypes_equal(a: &Vec<CType>, b: &Vec<CType>) -> (r: bool)
    ensures
        r == (a@ == b@),
{
    if a.len() != b.len() {
        return false;
    }
    let mut i: usize = 0;
    while i < a.len()
        invariant
            i <= a@.len(),
            a@.len() == b@.len(),
            forall|j: int| 0 <= j < i ==> a@[j] == b@[j],
        decreases a@.len() - i,
    {
        if a[i] != b[i] {
            return false;
        }
        i += 1;
    }
    proof {
        assert(a@ =~= b@);
    }
    true
}

fn seqs_equal(x: &Vec<Value>, y: &Vec<Value>, t: &mut Transcript) -> (r: Outcome<bool>)
    ensures
        final(t).answers() == old(t).answers(),
        (res_bool(r), final(t).position()) == equal_seq_spec(views(x@), views(y@), 0, old(t).answers(), old(t).position()),
    decreases x, 0int,
{
    let ghost xv = views(x@);
    let ghost yv = views(y@);
    if x.len() != y.len() {
        return Outcome::Done(false);
    }
    let mut i: usize = 0;
    while i < x.len()
        invariant
            i <= x@.len(),
            x@.len() == y@.len(),
            xv == views(x@),
            yv == views(y@),
            t.answers() == old(t).answers(),
            equal_seq_spec(xv, yv, 0, old(t).answers(), old(t).position())
                == equal_seq_spec(xv, yv, i as nat, t.answers(), t.position()),
        decreases x@.len() - i,
    {
        proof {
            assert(decreases_to!(x => x@));
            assert(decreases_to!(x@ => x@[i as int]));
        }
        assert(xv[i as int] == x@[i as int]@ && yv[i as int] == y@[i as int]@);
        match values_equal(&x[i], &y[i], t) {
            Outcome::Done(true) => {},
            other => {
                return other;
            },
        }
        i += 1;
    }
    Outcome::Done(true)
}

fn dicts_equal(x: &Vec<(String, Value)>, y: &Vec<(String, Value)>, t: &mut Transcript) -> (r: Outcome<bool>)
    ensures
        final(t).answers() == old(t).answers(),
        (res_bool(r), final(t).position()) == equal_dict_spec(entry_views(x@), entry_views(y@), 0, old(t).answers(), old(t).position()),
    decreases x, 0int,
{
    let ghost xv = entry_views(x@);
    let ghost yv = entry_views(y@);
    let mut i: usize = 0;
    while i < x.len()
        invariant
            i <= x@.len(),
            xv == entry_views(x@),
            yv == entry_views(y@),
            t.answers() == old(t).answers(),
            equal_dict_spec(xv, yv, 0, old(t).answers(), old(t).position())
                == equal_dict_spec(xv, yv, i as nat, t.answers(), t.position()),
        decreases x@.len() - i,
    {
        proof {
            assert(decreases_to!(x => x@));
            assert(decreases_to!(x@ => x@[i as int]));
            assert(decreases_to!(x@[i as int] => x@[i as int].1));
        }
        assert(xv[i as int] == (x@[i as int].0@, x@[i as int].1@));
        match find_entry(y, &x[i].0) {
            None => {
                return Outcome::Done(false);
            },
            Some(j) => {
                assert(yv[j as int] == (y@[j as int].0@, y@[j as int].1@));
                match values_equal(&x[i].1, &y[j].1, t) {
                    Outcome::Done(true) => {},
                    other => {
                        return other;
                    },
                }
            },
        }
        i += 1;
    }
    Outcome::Done(true)
}

/// Binds the names of the builtins in the innermost scope of `ctx`.
#[verifier::rlimit(100)]
pub fn install_builtins(ctx: &mut Context)
    requires
        old(ctx).wf(),
    ensures
        final(ctx).wf(),
        final(ctx).depth == old(ctx).depth,
        final(ctx)@ == old(ctx)@.update(old(ctx).depth as int, builtin_bindings(old(ctx)@[old(ctx).depth as int])),
{
    let ghost d = ctx.depth as int;
    let ghost m0 = ctx@[d];
    ctx.set(String::from_str("+"), Value::Builtin(Builtin::Add));
    ctx.set(String::from_str("-"), Value::Builtin(Builtin::Sub));
    ctx.set(String::from_str("*"), Value::Builtin(Builtin::Mul));
    ctx.set(String::from_str("/"), Value::Builtin(Builtin::Div));
    ctx.set(String::from_str("@"), Value::Builtin(Builtin::Peek));
    ctx.set(String::from_str("="), Value::Builtin(Builtin::Eq));
    ctx.set(String::from_str(">"), Value::Builtin(Builtin::Gt));
    ctx.set(String::from_str("and"), Value::Builtin(Builtin::And));
    ctx.set(String::from_str("or"), Value::Builtin(Builtin::Or));
    ctx.set(String::from_str("not"), Value::Builtin(Builtin::Not));
    ctx.set(String::from_str("dict"), Value::Builtin(Builtin::Dict));
    ctx.set(String::from_str("fmt"), Value::Builtin(Builtin::Fmt));
    ctx.set(String::from_str("len"), Value::Builtin(Builtin::Len));
    ctx.set(String::from_str("print"), Value::Builtin(Builtin::Print));
    ctx.set(String::from_str("println"), Value::Builtin(Builtin::Println));
    ctx.set(String::from_str("setq"), Value::Builtin(Builtin::Setq));
    ctx.set(String::from_str("ret"), Value::Builtin(Builtin::Ret));
    ctx.set(String::from_str("ifel"), Value::Builtin(Builtin::Ifel));
    ctx.set(String::from_str("inc"), Value::Builtin(Builtin::Inc));
    ctx.set(String::from_str("runtime_ctx"), Value::Builtin(Builtin::RuntimeCtx));
    ctx.set(String::from_str("ffi"), Value::Builtin(Builtin::Ffi));
}

/// A scope with the names of the builtins bound, over `m`.
pub open spec fn builtin_bindings(m: Map<Seq<char>, SVal>) -> Map<Seq<char>, SVal> {
    m.insert("+"@, SVal::Builtin(Builtin::Add))
        .insert("-"@, SVal::Builtin(Builtin::Sub))
        .insert("*"@, SVal::Builtin(Builtin::Mul))
        .insert("/"@, SVal::Builtin(Builtin::Div))
        .insert("@"@, SVal::Builtin(Builtin::Peek))
        .insert("="@, SVal::Builtin(Builtin::Eq))
        .insert(">"@, SVal::Builtin(Builtin::Gt))
        .insert("and"@, SVal::Builtin(Builtin::And))
        .insert("or"@, SVal::Builtin(Builtin::Or))
        .insert("not"@, SVal::Builtin(Builtin::Not))
        .insert("dict"@, SVal::Builtin(Builtin::Dict))
        .insert("fmt"@, SVal::Builtin(Builtin::Fmt))
        .insert("len"@, SVal::Builtin(Builtin::Len))
        .insert("print"@, SVal::Builtin(Builtin::Print))
        .insert("println"@, SVal::Builtin(Builtin::Println))
        .insert("setq"@, SVal::Builtin(Builtin::Setq))
        .insert("ret"@, SVal::Builtin(Builtin::Ret))
        .insert("ifel"@, SVal::Builtin(Builtin::Ifel))
        .insert("inc"@, SVal::Builtin(Builtin::Inc))
        .insert("runtime_ctx"@, SVal::Builtin(Builtin::RuntimeCtx))
        .insert("ffi"@, SVal::Builtin(Builtin::Ffi))
}

} // verus!
