//! Properties of the language that hold of every program.
use vstd::prelude::*;
use crate::context::{Env, SRuntime, keys_distinct, env_enter, env_lookup, env_pop, env_set};
use crate::host::{ArithOp, FloatOp, Reply, Res, SFault, SRequest, reply_at};
use crate::parser::{LexMode, PState, ParseResult, TokenV, TokenType, init_state, lex, mode_rank, parse_spec, tok, tokenise_spec};
use crate::text::is_digit;
use crate::semantics::{
    Step, done, fail, need, dict_get, dict_spec, dict_insert, key_index, eval_spec, block_spec, args_spec, operands_spec, apply_spec, builtin_spec, strict_builtin_spec,
    strict_spec, setq_spec, ifel_spec, inc_spec, print_spec, fmt_spec, fmt_vals_spec, fmt_one_spec, fmt_items_spec,
    fmt_entries_spec, eval_str_spec, report_spec, foreign_spec, equal_spec, equal_seq_spec, equal_dict_spec,
};
use crate::value::{Builtin, SVal, truthy};

verus! {

/// `rs2` starts with the replies `rs`.
pub open spec fn extends(rs: Seq<Reply>, rs2: Seq<Reply>) -> bool {
    &&& rs.len() <= rs2.len()
    &&& forall|i: int| 0 <= i < rs.len() ==> rs2[i] == rs[i]
}

/// A step reads replies only forward from `pos`, never past the last one,
/// and asks for a new reply only once it has read all of them.
pub open spec fn reads_in_order<T>(s: Step<T>, rs: Seq<Reply>, pos: nat) -> bool {
    &&& pos <= s.pos <= rs.len()
    &&& (s.res is Need ==> s.pos == rs.len())
}

/// A step that finishes leaves as many scopes as it found, and changes none
/// but the innermost.
pub open spec fn keeps_outer_scopes<T>(s: Step<T>, env: Env) -> bool {
    s.res is Done ==> {
        &&& s.env.len() == env.len()
        &&& forall|i: int| 0 <= i < env.len() - 1 ==> s.env[i] == env[i]
    }
}

/// `s` is a step from `env` reading `rs` from `pos`, and `s2` the same step
/// reading replies that extend `rs`.
pub open spec fn well_behaved<T>(s: Step<T>, s2: Step<T>, env: Env, rs: Seq<Reply>, pos: nat) -> bool {
    &&& reads_in_order(s, rs, pos)
    &&& keeps_outer_scopes(s, env)
    &&& (!(s.res is Need) ==> s2 == s)
}

pub open spec fn well_behaved_pair<T>(p: (Res<T>, nat), p2: (Res<T>, nat), rs: Seq<Reply>, pos: nat) -> bool {
    &&& pos <= p.1 <= rs.len()
    &&& (p.0 is Need ==> p.1 == rs.len())
    &&& (!(p.0 is Need) ==> p2 == p)
}

proof fn lemma_reply_at(rs: Seq<Reply>, rs2: Seq<Reply>, pos: nat)
    requires
        extends(rs, rs2),
        pos < rs.len(),
    ensures
        reply_at(rs2, pos) == reply_at(rs, pos),
{
}

//////////////////////////////////////////////////////////////////////////////
// Parsing and equality read replies in order.
//////////////////////////////////////////////////////////////////////////////

proof fn lemma_parse(
    toks: Seq<TokenV>,
    i: nat,
    depth: nat,
    st: PState,
    start: Option<TokenV>,
    rs: Seq<Reply>,
    rs2: Seq<Reply>,
    pos: nat,
)
    requires
        pos <= rs.len(),
        extends(rs, rs2),
    ensures
        well_behaved_pair(parse_spec(toks, i, depth, st, start, rs, pos), parse_spec(toks, i, depth, st, start, rs2, pos), rs, pos),
    decreases toks.len() - i,
{
    if i < toks.len() {
        let t = toks[i as int];
        match t.kind {
            TokenType::LPar => {
                let bq = st.backquote && !st.comma;
                let sub = toks.subrange(i + 1 as int, toks.len() as int);
                lemma_parse(sub, 0, depth + 1, init_state(st.quote, bq), Some(t), rs, rs2, pos);
                let (r, pos1) = parse_spec(sub, 0, depth + 1, init_state(st.quote, bq), Some(t), rs, pos);
                match r {
                    Res::Done(Ok((parsed, consumed))) => {
                        let st2 = if st.quote || bq {
                            PState { out: st.out.push(crate::parser::as_list(parsed)), quote: false, backquote: false, comma: false, lambda: st.lambda }
                        } else if st.lambda {
                            PState { out: st.out.push(crate::parser::as_lambda(parsed)), quote: st.quote, backquote: bq, comma: st.comma, lambda: false }
                        } else {
                            PState { out: st.out.push(parsed), quote: st.quote, backquote: bq, comma: st.comma, lambda: st.lambda }
                        };
                        let next = i + consumed + 1;
                        lemma_parse(toks, if next > toks.len() { toks.len() } else { next }, depth, st2, start, rs, rs2, pos1);
                    },
                    _ => {},
                }
            },
            TokenType::Int => {
                match crate::text::parse_i64_text(t.expr) {
                    Some(v) => {
                        lemma_parse(toks, i + 1, depth, crate::parser::with_out(st, SVal::Int(v)), start, rs, rs2, pos);
                    },
                    None => {},
                }
            },
            TokenType::Float => {
                if pos < rs.len() {
                    lemma_reply_at(rs, rs2, pos);
                    match reply_at(rs, pos) {
                        Some(Reply::Bits(b)) => {
                            lemma_parse(toks, i + 1, depth, crate::parser::with_out(st, SVal::Float(b)), start, rs, rs2, pos + 1);
                        },
                        _ => {},
                    }
                }
            },
            TokenType::Str => {
                lemma_parse(toks, i + 1, depth, crate::parser::with_out(st, SVal::Str(t.expr)), start, rs, rs2, pos);
            },
            TokenType::Atom => {
                if t.expr == "true"@ {
                    lemma_parse(toks, i + 1, depth, crate::parser::with_out(st, SVal::Bool(true)), start, rs, rs2, pos);
                } else if t.expr == "false"@ {
                    lemma_parse(toks, i + 1, depth, crate::parser::with_out(st, SVal::Bool(false)), start, rs, rs2, pos);
                } else if t.expr == "'"@ {
                    lemma_parse(toks, i + 1, depth, PState { quote: true, ..st }, start, rs, rs2, pos);
                } else if t.expr == "`"@ {
                    lemma_parse(toks, i + 1, depth, PState { backquote: true, ..st }, start, rs, rs2, pos);
                } else if t.expr == ","@ {
                    if st.backquote {
                        lemma_parse(toks, i + 1, depth, PState { comma: true, ..st }, start, rs, rs2, pos);
                    } else if st.quote {
                        lemma_parse(toks, i + 1, depth, crate::parser::with_out(st, SVal::Atom(","@)), start, rs, rs2, pos);
                    } else {
                        lemma_parse(toks, i + 1, depth, st, start, rs, rs2, pos);
                    }
                } else if t.expr == "."@ {
                    lemma_parse(toks, i + 1, depth, PState { lambda: true, ..st }, start, rs, rs2, pos);
                } else {
                    lemma_parse(toks, i + 1, depth, crate::parser::with_out(PState { comma: false, ..st }, SVal::Atom(t.expr)), start, rs, rs2, pos);
                }
            },
            TokenType::RPar => {},
        }
    }
}

proof fn lemma_equal(a: SVal, b: SVal, rs: Seq<Reply>, rs2: Seq<Reply>, pos: nat)
    requires
        pos <= rs.len(),
        extends(rs, rs2),
    ensures
        well_behaved_pair(equal_spec(a, b, rs, pos), equal_spec(a, b, rs2, pos), rs, pos),
    decreases a, 0int,
{
    match (a, b) {
        (SVal::Float(_), SVal::Float(_)) => {
            if pos < rs.len() {
                lemma_reply_at(rs, rs2, pos);
            }
        },
        (SVal::List(x), SVal::List(y)) => lemma_equal_seq(x, y, 0, rs, rs2, pos),
        (SVal::Eval(x), SVal::Eval(y)) => lemma_equal_seq(x, y, 0, rs, rs2, pos),
        (SVal::Lambda(x), SVal::Lambda(y)) => lemma_equal_seq(x, y, 0, rs, rs2, pos),
        (SVal::Dict(x), SVal::Dict(y)) => {
            if x.len() == y.len() {
                lemma_equal_dict(x, y, 0, rs, rs2, pos);
            }
        },
        (SVal::Ret(x), SVal::Ret(y)) => lemma_equal(*x, *y, rs, rs2, pos),
        _ => {},
    }
}

proof fn lemma_equal_seq(x: Seq<SVal>, y: Seq<SVal>, i: nat, rs: Seq<Reply>, rs2: Seq<Reply>, pos: nat)
    requires
        pos <= rs.len(),
        extends(rs, rs2),
    ensures
        well_behaved_pair(equal_seq_spec(x, y, i, rs, pos), equal_seq_spec(x, y, i, rs2, pos), rs, pos),
    decreases x, x.len() - i,
{
    if x.len() == y.len() && i < x.len() {
        lemma_equal(x[i as int], y[i as int], rs, rs2, pos);
        let (r, pos1) = equal_spec(x[i as int], y[i as int], rs, pos);
        if r == Res::<bool>::Done(true) {
            lemma_equal_seq(x, y, i + 1, rs, rs2, pos1);
        }
    }
}

proof fn lemma_equal_dict(x: Seq<(Seq<char>, SVal)>, y: Seq<(Seq<char>, SVal)>, i: nat, rs: Seq<Reply>, rs2: Seq<Reply>, pos: nat)
    requires
        pos <= rs.len(),
        extends(rs, rs2),
    ensures
        well_behaved_pair(equal_dict_spec(x, y, i, rs, pos), equal_dict_spec(x, y, i, rs2, pos), rs, pos),
    decreases x, x.len() - i,
{
    if i < x.len() {
        match crate::semantics::dict_get(y, x[i as int].0) {
            Some(w) => {
                lemma_equal(x[i as int].1, w, rs, rs2, pos);
                let (r, pos1) = equal_spec(x[i as int].1, w, rs, pos);
                if r == Res::<bool>::Done(true) {
                    lemma_equal_dict(x, y, i + 1, rs, rs2, pos1);
                }
            },
            None => {},
        }
    }
}

//////////////////////////////////////////////////////////////////////////////
// Evaluation reads replies in order, and keeps the outer scopes.
//////////////////////////////////////////////////////////////////////////////

/// Evaluation reads the host's replies in order and asks for a new one only
/// after reading all it was given; given more replies, a finished evaluation
/// comes out the same; and a finished evaluation leaves as many scopes as it
/// found, changing none but the innermost.
pub proof fn law_eval_replies_and_scopes(
    fuel: nat,
    ast: SVal,
    env: Env,
    rt: SRuntime,
    rs: Seq<Reply>,
    rs2: Seq<Reply>,
    pos: nat,
)
    requires
        pos <= rs.len(),
        extends(rs, rs2),
        env.len() >= 1,
    ensures
        well_behaved(eval_spec(fuel, ast, env, rt, rs, pos), eval_spec(fuel, ast, env, rt, rs2, pos), env, rs, pos),
    decreases fuel, 0nat, 0nat,
{
    if fuel > 0 {
        let f = (fuel - 1) as nat;
        match ast {
            SVal::Eval(list) => {
                if list.len() > 0 {
                    if list[0] is Eval {
                        if list.len() == 1 {
                            law_eval_replies_and_scopes(f, list[0], env, rt, rs, rs2, pos);
                        } else {
                            lemma_block(f, list, 0, Seq::empty(), env, rt, rs, rs2, pos);
                        }
                    } else {
                        law_eval_replies_and_scopes(f, list[0], env, rt, rs, rs2, pos);
                        let s = eval_spec(f, list[0], env, rt, rs, pos);
                        match s.res {
                            Res::Done(oper) => {
                                lemma_apply(f, oper, list.drop_first(), s.env, rt, rs, rs2, s.pos);
                            },
                            _ => {},
                        }
                    }
                }
            },
            _ => {},
        }
    }
}

proof fn lemma_block(
    fuel: nat,
    list: Seq<SVal>,
    i: nat,
    acc: Seq<SVal>,
    env: Env,
    rt: SRuntime,
    rs: Seq<Reply>,
    rs2: Seq<Reply>,
    pos: nat,
)
    requires
        pos <= rs.len(),
        extends(rs, rs2),
        env.len() >= 1,
    ensures
        well_behaved(block_spec(fuel, list, i, acc, env, rt, rs, pos), block_spec(fuel, list, i, acc, env, rt, rs2, pos), env, rs, pos),
    decreases fuel, 1nat, list.len() - i,
{
    if i < list.len() {
        law_eval_replies_and_scopes(fuel, list[i as int], env, rt, rs, rs2, pos);
        let s = eval_spec(fuel, list[i as int], env, rt, rs, pos);
        match s.res {
            Res::Done(SVal::Ret(_)) => {},
            Res::Done(v) => {
                lemma_block(fuel, list, i + 1, acc.push(v), s.env, rt, rs, rs2, s.pos);
            },
            _ => {},
        }
    }
}

proof fn lemma_args(
    fuel: nat,
    args: Seq<SVal>,
    i: nat,
    acc: Seq<SVal>,
    env: Env,
    rt: SRuntime,
    rs: Seq<Reply>,
    rs2: Seq<Reply>,
    pos: nat,
)
    requires
        pos <= rs.len(),
        extends(rs, rs2),
        env.len() >= 1,
    ensures
        well_behaved(args_spec(fuel, args, i, acc, env, rt, rs, pos), args_spec(fuel, args, i, acc, env, rt, rs2, pos), env, rs, pos),
    decreases fuel, 1nat, args.len() - i,
{
    if i < args.len() {
        if crate::semantics::evaluated_arg(args[i as int]) {
            law_eval_replies_and_scopes(fuel, args[i as int], env, rt, rs, rs2, pos);
            let s = eval_spec(fuel, args[i as int], env, rt, rs, pos);
            match s.res {
                Res::Done(v) => {
                    lemma_args(fuel, args, i + 1, acc.push(v), s.env, rt, rs, rs2, s.pos);
                },
                _ => {},
            }
        } else {
            lemma_args(fuel, args, i + 1, acc.push(args[i as int]), env, rt, rs, rs2, pos);
        }
    }
}

proof fn lemma_operands(
    fuel: nat,
    args: Seq<SVal>,
    i: nat,
    acc: Seq<SVal>,
    env: Env,
    rt: SRuntime,
    rs: Seq<Reply>,
    rs2: Seq<Reply>,
    pos: nat,
)
    requires
        pos <= rs.len(),
        extends(rs, rs2),
        env.len() >= 1,
    ensures
        well_behaved(operands_spec(fuel, args, i, acc, env, rt, rs, pos), operands_spec(fuel, args, i, acc, env, rt, rs2, pos), env, rs, pos),
    decreases fuel, 1nat, args.len() - i,
{
    if i < args.len() {
        law_eval_replies_and_scopes(fuel, args[i as int], env, rt, rs, rs2, pos);
        let s = eval_spec(fuel, args[i as int], env, rt, rs, pos);
        match s.res {
            Res::Done(v) => {
                lemma_operands(fuel, args, i + 1, acc.push(v), s.env, rt, rs, rs2, s.pos);
            },
            _ => {},
        }
    }
}

proof fn lemma_apply(
    fuel: nat,
    oper: SVal,
    args: Seq<SVal>,
    env: Env,
    rt: SRuntime,
    rs: Seq<Reply>,
    rs2: Seq<Reply>,
    pos: nat,
)
    requires
        pos <= rs.len(),
        extends(rs, rs2),
        env.len() >= 1,
    ensures
        well_behaved(apply_spec(fuel, oper, args, env, rt, rs, pos), apply_spec(fuel, oper, args, env, rt, rs2, pos), env, rs, pos),
    decreases fuel, 5nat, 0nat,
{
    match oper {
        SVal::Builtin(b) => {
            lemma_builtin(fuel, b, args, env, rt, rs, rs2, pos);
        },
        SVal::Lambda(body) => {
            lemma_args(fuel, args, 0, Seq::empty(), env, rt, rs, rs2, pos);
            let s = args_spec(fuel, args, 0, Seq::empty(), env, rt, rs, pos);
            match s.res {
                Res::Done(vs) => {
                    if s.env.len() < i32::MAX + 1 {
                        let e2 = env_enter(s.env, vs);
                        law_eval_replies_and_scopes(fuel, SVal::Eval(body), e2, rt, rs, rs2, s.pos);
                        let r = eval_spec(fuel, SVal::Eval(body), e2, rt, rs, s.pos);
                        if r.res is Done {
                            assert(env_pop(r.env) =~= s.env) by {
                                assert forall|i: int| 0 <= i < s.env.len() implies env_pop(r.env)[i] == s.env[i] by {
                                    assert(r.env[i] == e2[i]);
                                }
                            }
                        }
                    }
                },
                _ => {},
            }
        },
        SVal::FFI(lib, sym, types, ret) => {
            lemma_args(fuel, args, 0, Seq::empty(), env, rt, rs, rs2, pos);
            let s = args_spec(fuel, args, 0, Seq::empty(), env, rt, rs, pos);
            match s.res {
                Res::Done(vs) => {
                    if s.pos < rs.len() {
                        lemma_reply_at(rs, rs2, s.pos);
                    }
                    if s.pos + 1 < rs.len() {
                        lemma_reply_at(rs, rs2, s.pos + 1);
                    }
                },
                _ => {},
            }
        },
        _ => {},
    }
}

proof fn lemma_builtin(
    fuel: nat,
    b: Builtin,
    args: Seq<SVal>,
    env: Env,
    rt: SRuntime,
    rs: Seq<Reply>,
    rs2: Seq<Reply>,
    pos: nat,
)
    requires
        pos <= rs.len(),
        extends(rs, rs2),
        env.len() >= 1,
    ensures
        well_behaved(builtin_spec(fuel, b, args, env, rt, rs, pos), builtin_spec(fuel, b, args, env, rt, rs2, pos), env, rs, pos),
    decreases fuel, 4nat, 0nat,
{
    match b {
        Builtin::Setq => lemma_setq(fuel, args, env, rt, rs, rs2, pos),
        Builtin::Ifel => lemma_ifel(fuel, args, env, rt, rs, rs2, pos),
        Builtin::Inc => lemma_inc(fuel, args, env, rt, rs, rs2, pos),
        Builtin::Ffi => {},
        Builtin::RuntimeCtx => {},
        Builtin::Fmt => lemma_fmt(fuel, args, env, rt, rs, rs2, pos),
        Builtin::Print => lemma_print(fuel, false, args, env, rt, rs, rs2, pos),
        Builtin::Println => lemma_print(fuel, true, args, env, rt, rs, rs2, pos),
        _ => lemma_strict_builtin(fuel, b, args, env, rt, rs, rs2, pos),
    }
}

proof fn lemma_strict_builtin(
    fuel: nat,
    b: Builtin,
    args: Seq<SVal>,
    env: Env,
    rt: SRuntime,
    rs: Seq<Reply>,
    rs2: Seq<Reply>,
    pos: nat,
)
    requires
        pos <= rs.len(),
        extends(rs, rs2),
        env.len() >= 1,
    ensures
        well_behaved(strict_builtin_spec(fuel, b, args, env, rt, rs, pos), strict_builtin_spec(fuel, b, args, env, rt, rs2, pos), env, rs, pos),
    decreases fuel, 2nat, 0nat,
{
    lemma_operands(fuel, args, 0, Seq::empty(), env, rt, rs, rs2, pos);
    let s = operands_spec(fuel, args, 0, Seq::empty(), env, rt, rs, pos);
    match s.res {
        Res::Done(vals) => {
            lemma_strict(b, vals, s.env, rs, rs2, s.pos);
        },
        _ => {},
    }
}

proof fn lemma_strict(b: Builtin, vals: Seq<SVal>, env: Env, rs: Seq<Reply>, rs2: Seq<Reply>, pos: nat)
    requires
        pos <= rs.len(),
        extends(rs, rs2),
    ensures
        reads_in_order(strict_spec(b, vals, env, rs, pos), rs, pos),
        strict_spec(b, vals, env, rs, pos).res is Done ==> strict_spec(b, vals, env, rs, pos).env == env,
        !(strict_spec(b, vals, env, rs, pos).res is Need) ==> strict_spec(b, vals, env, rs2, pos) == strict_spec(b, vals, env, rs, pos),
{
    if pos < rs.len() {
        lemma_reply_at(rs, rs2, pos);
    }
    if b == Builtin::Eq && vals.len() >= 2 {
        lemma_equal(vals[0], vals[1], rs, rs2, pos);
    }
    if b == Builtin::Dict {
        lemma_dict_env(vals, 0, Seq::empty(), Seq::empty(), env, pos);
    }
}

proof fn lemma_dict_env(vals: Seq<SVal>, i: nat, key: Seq<char>, acc: Seq<(Seq<char>, SVal)>, env: Env, pos: nat)
    ensures
        dict_spec(vals, i, key, acc, env, pos).env == env,
        dict_spec(vals, i, key, acc, env, pos).pos == pos,
        !(dict_spec(vals, i, key, acc, env, pos).res is Need),
    decreases vals.len() - i,
{
    if i < vals.len() {
        if i % 2 == 0 {
            match vals[i as int] {
                SVal::Str(k) => lemma_dict_env(vals, i + 1, k, acc, env, pos),
                _ => {},
            }
        } else {
            lemma_dict_env(vals, i + 1, key, crate::semantics::dict_insert(acc, key, vals[i as int]), env, pos);
        }
    }
}

proof fn lemma_setq(fuel: nat, args: Seq<SVal>, env: Env, rt: SRuntime, rs: Seq<Reply>, rs2: Seq<Reply>, pos: nat)
    requires
        pos <= rs.len(),
        extends(rs, rs2),
        env.len() >= 1,
    ensures
        well_behaved(setq_spec(fuel, args, env, rt, rs, pos), setq_spec(fuel, args, env, rt, rs2, pos), env, rs, pos),
    decreases fuel, 2nat, 0nat,
{
    if args.len() >= 2 {
        match args[0] {
            SVal::Atom(name) => {
                law_eval_replies_and_scopes(fuel, args[1], env, rt, rs, rs2, pos);
            },
            _ => {},
        }
    }
}

proof fn lemma_ifel(fuel: nat, args: Seq<SVal>, env: Env, rt: SRuntime, rs: Seq<Reply>, rs2: Seq<Reply>, pos: nat)
    requires
        pos <= rs.len(),
        extends(rs, rs2),
        env.len() >= 1,
    ensures
        well_behaved(ifel_spec(fuel, args, env, rt, rs, pos), ifel_spec(fuel, args, env, rt, rs2, pos), env, rs, pos),
    decreases fuel, 2nat, 0nat,
{
    if args.len() > 0 {
        law_eval_replies_and_scopes(fuel, args[0], env, rt, rs, rs2, pos);
        let c = eval_spec(fuel, args[0], env, rt, rs, pos);
        match c.res {
            Res::Done(SVal::Bool(true)) => {
                if args.len() >= 2 {
                    law_eval_replies_and_scopes(fuel, args[1], c.env, rt, rs, rs2, c.pos);
                }
            },
            Res::Done(SVal::Bool(false)) => {
                if args.len() >= 3 {
                    law_eval_replies_and_scopes(fuel, args[2], c.env, rt, rs, rs2, c.pos);
                }
            },
            _ => {},
        }
    }
}

proof fn lemma_inc(fuel: nat, args: Seq<SVal>, env: Env, rt: SRuntime, rs: Seq<Reply>, rs2: Seq<Reply>, pos: nat)
    requires
        pos <= rs.len(),
        extends(rs, rs2),
        env.len() >= 1,
    ensures
        well_behaved(inc_spec(fuel, args, env, rt, rs, pos), inc_spec(fuel, args, env, rt, rs2, pos), env, rs, pos),
    decreases fuel, 2nat, 0nat,
{
    if env.len() == 1 && args.len() > 0 {
        law_eval_replies_and_scopes(fuel, args[0], env, rt, rs, rs2, pos);
        let s = eval_spec(fuel, args[0], env, rt, rs, pos);
        match s.res {
            Res::Done(SVal::Str(name)) => {
                if s.pos < rs.len() {
                    lemma_reply_at(rs, rs2, s.pos);
                    match reply_at(rs, s.pos) {
                        Some(Reply::Text(c)) => {
                            lemma_eval_str(
                                fuel,
                                c@,
                                s.env,
                                SRuntime { in_repl: rt.in_repl, in_include: true, argv: rt.argv },
                                rs,
                                rs2,
                                s.pos + 1,
                            );
                        },
                        _ => {},
                    }
                }
            },
            _ => {},
        }
    }
}

proof fn lemma_eval_str(fuel: nat, text: Seq<char>, env: Env, rt: SRuntime, rs: Seq<Reply>, rs2: Seq<Reply>, pos: nat)
    requires
        pos <= rs.len(),
        extends(rs, rs2),
        env.len() >= 1,
    ensures
        well_behaved(eval_str_spec(fuel, text, env, rt, rs, pos), eval_str_spec(fuel, text, env, rt, rs2, pos), env, rs, pos),
    decreases fuel, 1nat, 0nat,
{
    match tokenise_spec(text) {
        Err(m) => {
            if pos < rs.len() {
                lemma_reply_at(rs, rs2, pos);
            }
        },
        Ok(toks) => {
            lemma_parse(toks, 0, 0, init_state(false, false), None, rs, rs2, pos);
            let (p, pos1) = parse_spec(toks, 0, 0, init_state(false, false), None, rs, pos);
            match p {
                Res::Done(Ok((ast, _))) => {
                    law_eval_replies_and_scopes(fuel, ast, env, rt, rs, rs2, pos1);
                },
                Res::Done(Err(m)) => {
                    if pos1 < rs.len() {
                        lemma_reply_at(rs, rs2, pos1);
                    }
                },
                _ => {},
            }
        },
    }
}

proof fn lemma_print(fuel: nat, line: bool, args: Seq<SVal>, env: Env, rt: SRuntime, rs: Seq<Reply>, rs2: Seq<Reply>, pos: nat)
    requires
        pos <= rs.len(),
        extends(rs, rs2),
        env.len() >= 1,
    ensures
        well_behaved(print_spec(fuel, line, args, env, rt, rs, pos), print_spec(fuel, line, args, env, rt, rs2, pos), env, rs, pos),
    decreases fuel, 3nat, 0nat,
{
    lemma_fmt(fuel, args, env, rt, rs, rs2, pos);
    let s = fmt_spec(fuel, args, env, rt, rs, pos);
    if s.pos < rs.len() {
        lemma_reply_at(rs, rs2, s.pos);
    }
}

proof fn lemma_fmt(fuel: nat, args: Seq<SVal>, env: Env, rt: SRuntime, rs: Seq<Reply>, rs2: Seq<Reply>, pos: nat)
    requires
        pos <= rs.len(),
        extends(rs, rs2),
        env.len() >= 1,
    ensures
        well_behaved(fmt_spec(fuel, args, env, rt, rs, pos), fmt_spec(fuel, args, env, rt, rs2, pos), env, rs, pos),
    decreases fuel, 2nat, 0nat,
{
    lemma_operands(fuel, args, 0, Seq::empty(), env, rt, rs, rs2, pos);
    let s = operands_spec(fuel, args, 0, Seq::empty(), env, rt, rs, pos);
    match s.res {
        Res::Done(vals) => {
            lemma_fmt_vals(fuel, vals, 0, Seq::empty(), s.env, rt, rs, rs2, s.pos);
        },
        _ => {},
    }
}

proof fn lemma_fmt_vals(
    fuel: nat,
    vals: Seq<SVal>,
    i: nat,
    acc: Seq<char>,
    env: Env,
    rt: SRuntime,
    rs: Seq<Reply>,
    rs2: Seq<Reply>,
    pos: nat,
)
    requires
        pos <= rs.len(),
        extends(rs, rs2),
        env.len() >= 1,
    ensures
        well_behaved(fmt_vals_spec(fuel, vals, i, acc, env, rt, rs, pos), fmt_vals_spec(fuel, vals, i, acc, env, rt, rs2, pos), env, rs, pos),
    decreases fuel, 1nat, vals.len() - i,
{
    if i < vals.len() {
        lemma_fmt_one(fuel, vals[i as int], env, rt, rs, rs2, pos);
        let s = fmt_one_spec(fuel, vals[i as int], env, rt, rs, pos);
        match s.res {
            Res::Done(piece) => {
                lemma_fmt_vals(fuel, vals, i + 1, acc + piece, s.env, rt, rs, rs2, s.pos);
            },
            _ => {},
        }
    }
}

proof fn lemma_fmt_one(fuel: nat, x: SVal, env: Env, rt: SRuntime, rs: Seq<Reply>, rs2: Seq<Reply>, pos: nat)
    requires
        pos <= rs.len(),
        extends(rs, rs2),
        env.len() >= 1,
    ensures
        well_behaved(fmt_one_spec(fuel, x, env, rt, rs, pos), fmt_one_spec(fuel, x, env, rt, rs2, pos), env, rs, pos),
    decreases fuel, 0nat, 0nat,
{
    match x {
        SVal::Float(_) => {
            if pos < rs.len() {
                lemma_reply_at(rs, rs2, pos);
            }
        },
        SVal::List(l) | SVal::Eval(l) => {
            if fuel > 0 {
                lemma_fmt_items((fuel - 1) as nat, l, 0, Seq::empty(), env, rt, rs, rs2, pos);
            }
        },
        SVal::Dict(d) => {
            if fuel > 0 {
                lemma_fmt_entries((fuel - 1) as nat, d, 0, Seq::empty(), env, rt, rs, rs2, pos);
            }
        },
        SVal::Ret(v) => {
            if fuel > 0 {
                lemma_fmt((fuel - 1) as nat, seq![*v], env, rt, rs, rs2, pos);
            }
        },
        _ => {},
    }
}

proof fn lemma_fmt_items(
    fuel: nat,
    l: Seq<SVal>,
    i: nat,
    acc: Seq<char>,
    env: Env,
    rt: SRuntime,
    rs: Seq<Reply>,
    rs2: Seq<Reply>,
    pos: nat,
)
    requires
        pos <= rs.len(),
        extends(rs, rs2),
        env.len() >= 1,
    ensures
        well_behaved(fmt_items_spec(fuel, l, i, acc, env, rt, rs, pos), fmt_items_spec(fuel, l, i, acc, env, rt, rs2, pos), env, rs, pos),
    decreases fuel, 3nat, l.len() - i,
{
    if i < l.len() {
        lemma_fmt(fuel, seq![l[i as int]], env, rt, rs, rs2, pos);
        let s = fmt_spec(fuel, seq![l[i as int]], env, rt, rs, pos);
        match s.res {
            Res::Done(r) => {
                let acc2 = if i > 0 {
                    acc + " "@ + crate::semantics::text_or_empty(r)
                } else {
                    acc + crate::semantics::text_or_empty(r)
                };
                lemma_fmt_items(fuel, l, i + 1, acc2, s.env, rt, rs, rs2, s.pos);
            },
            _ => {},
        }
    }
}

proof fn lemma_fmt_entries(
    fuel: nat,
    d: Seq<(Seq<char>, SVal)>,
    i: nat,
    acc: Seq<char>,
    env: Env,
    rt: SRuntime,
    rs: Seq<Reply>,
    rs2: Seq<Reply>,
    pos: nat,
)
    requires
        pos <= rs.len(),
        extends(rs, rs2),
        env.len() >= 1,
    ensures
        well_behaved(fmt_entries_spec(fuel, d, i, acc, env, rt, rs, pos), fmt_entries_spec(fuel, d, i, acc, env, rt, rs2, pos), env, rs, pos),
    decreases fuel, 3nat, d.len() - i,
{
    if i < d.len() {
        lemma_fmt(fuel, seq![d[i as int].1], env, rt, rs, rs2, pos);
        let s = fmt_spec(fuel, seq![d[i as int].1], env, rt, rs, pos);
        match s.res {
            Res::Done(r) => {
                let text = crate::semantics::text_or_empty(r);
                let acc2 = acc + d[i as int].0 + ": "@ + text;
                let acc3 = if i + 1 < (crate::semantics::utf8_len(text) as usize) { acc2 + ", "@ } else { acc2 };
                lemma_fmt_entries(fuel, d, i + 1, acc3, s.env, rt, rs, rs2, s.pos);
            },
            _ => {},
        }
    }
}

//////////////////////////////////////////////////////////////////////////////
// Parenthesising a balanced token sequence nests its parse.
//////////////////////////////////////////////////////////////////////////////

/// Opening minus closing parentheses among `toks[i..j]`.
pub open spec fn paren_balance(toks: Seq<TokenV>, i: int, j: int) -> int
    decreases j - i,
{
    if j <= i {
        0
    } else {
        paren_balance(toks, i, j - 1) + (if toks[j - 1].kind == TokenType::LPar {
            1int
        } else if toks[j - 1].kind == TokenType::RPar {
            -1int
        } else {
            0int
        })
    }
}

/// No prefix of `toks[i..]` closes more parentheses than it opens.
pub open spec fn never_overclosed(toks: Seq<TokenV>, i: int) -> bool {
    forall|k: int| i <= k <= toks.len() ==> #[trigger] paren_balance(toks, i, k) >= 0
}

proof fn lemma_balance_add(toks: Seq<TokenV>, i: int, j: int, k: int)
    requires
        i <= j <= k,
    ensures
        paren_balance(toks, i, k) == paren_balance(toks, i, j) + paren_balance(toks, j, k),
    decreases k - j,
{
    if k > j {
        lemma_balance_add(toks, i, j, k - 1);
    }
}

proof fn lemma_balance_sub(toks: Seq<TokenV>, a: int, i: int, k: int)
    requires
        0 <= a <= toks.len(),
        0 <= i <= k <= toks.len() - a,
    ensures
        paren_balance(toks.subrange(a, toks.len() as int), i, k) == paren_balance(toks, a + i, a + k),
    decreases k - i,
{
    if k > i {
        lemma_balance_sub(toks, a, i, k - 1);
    }
}

/// What a token other than a parenthesis does to the parser: the state and
/// reply position it goes on with, or `None` when it stops the parse.
pub open spec fn simple_step(t: TokenV, st: PState, rs: Seq<Reply>, pos: nat) -> Option<(PState, nat)> {
    match t.kind {
        TokenType::Int => match crate::text::parse_i64_text(t.expr) {
            Some(v) => Some((crate::parser::with_out(st, SVal::Int(v)), pos)),
            None => None,
        },
        TokenType::Float => match reply_at(rs, pos) {
            Some(Reply::Bits(b)) => Some((crate::parser::with_out(st, SVal::Float(b)), pos + 1)),
            _ => None,
        },
        TokenType::Str => Some((crate::parser::with_out(st, SVal::Str(t.expr)), pos)),
        TokenType::Atom => {
            if t.expr == "true"@ {
                Some((crate::parser::with_out(st, SVal::Bool(true)), pos))
            } else if t.expr == "false"@ {
                Some((crate::parser::with_out(st, SVal::Bool(false)), pos))
            } else if t.expr == "'"@ {
                Some((PState { quote: true, ..st }, pos))
            } else if t.expr == "`"@ {
                Some((PState { backquote: true, ..st }, pos))
            } else if t.expr == ","@ {
                if st.backquote {
                    Some((PState { comma: true, ..st }, pos))
                } else if st.quote {
                    Some((crate::parser::with_out(st, SVal::Atom(","@)), pos))
                } else {
                    Some((st, pos))
                }
            } else if t.expr == "."@ {
                Some((PState { lambda: true, ..st }, pos))
            } else {
                Some((crate::parser::with_out(PState { comma: false, ..st }, SVal::Atom(t.expr)), pos))
            }
        },
        _ => None,
    }
}

proof fn lemma_simple_step(toks: Seq<TokenV>, i: nat, depth: nat, st: PState, start: Option<TokenV>, rs: Seq<Reply>, pos: nat)
    requires
        i < toks.len(),
        toks[i as int].kind != TokenType::LPar,
        toks[i as int].kind != TokenType::RPar,
    ensures
        simple_step(toks[i as int], st, rs, pos) matches Some((st2, pos2)) ==> parse_spec(toks, i, depth, st, start, rs, pos)
            == parse_spec(toks, i + 1, depth, st2, start, rs, pos2),
        simple_step(toks[i as int], st, rs, pos) is None ==> !(parse_spec(toks, i, depth, st, start, rs, pos).0 is Done
            && parse_spec(toks, i, depth, st, start, rs, pos).0->Done_0 is Ok),
{
}

/// The state after a parenthesised group parsed as `parsed`.
pub open spec fn after_group(st: PState, parsed: SVal) -> PState {
    let bq = st.backquote && !st.comma;
    if st.quote || bq {
        PState { out: st.out.push(crate::parser::as_list(parsed)), quote: false, backquote: false, comma: false, lambda: st.lambda }
    } else if st.lambda {
        PState { out: st.out.push(crate::parser::as_lambda(parsed)), quote: st.quote, backquote: bq, comma: st.comma, lambda: false }
    } else {
        PState { out: st.out.push(parsed), quote: st.quote, backquote: bq, comma: st.comma, lambda: st.lambda }
    }
}

/// A finished parse never reports more tokens than there are.
proof fn lemma_parse_within(toks: Seq<TokenV>, i: nat, depth: nat, st: PState, start: Option<TokenV>, rs: Seq<Reply>, pos: nat)
    requires
        i <= toks.len(),
    ensures
        parse_spec(toks, i, depth, st, start, rs, pos).0 matches Res::Done(Ok((_, n))) ==> i <= n <= toks.len(),
    decreases toks.len() - i,
{
    if i < toks.len() {
        let t = toks[i as int];
        if t.kind == TokenType::LPar {
            let bq = st.backquote && !st.comma;
            let sub = toks.subrange(i + 1 as int, toks.len() as int);
            let (r, pos1) = parse_spec(sub, 0, depth + 1, init_state(st.quote, bq), Some(t), rs, pos);
            if let Res::Done(Ok((parsed, consumed))) = r {
                let next = i + consumed + 1;
                lemma_parse_within(toks, if next > toks.len() { toks.len() } else { next }, depth, after_group(st, parsed), start, rs, pos1);
            }
        } else if t.kind != TokenType::RPar {
            lemma_simple_step(toks, i, depth, st, start, rs, pos);
            if let Some((st2, pos2)) = simple_step(t, st, rs, pos) {
                lemma_parse_within(toks, i + 1, depth, st2, start, rs, pos2);
            }
        }
    }
}

/// Inside a group (depth at least one), a parse that succeeds ends at the
/// `)` that closes the group: it closes exactly one parenthesis more than it
/// opens, and neither the depth nor the tokens after it change it.
proof fn lemma_group_parse(
    toks: Seq<TokenV>,
    extra: Seq<TokenV>,
    i: nat,
    depth: nat,
    depth2: nat,
    st: PState,
    start: Option<TokenV>,
    rs: Seq<Reply>,
    pos: nat,
)
    requires
        i <= toks.len(),
        depth >= 1,
        depth2 >= 1,
    ensures
        parse_spec(toks, i, depth, st, start, rs, pos).0 matches Res::Done(Ok((_, n))) ==> {
            &&& paren_balance(toks, i as int, n as int) == -1
            &&& parse_spec(toks + extra, i, depth2, st, start, rs, pos) == parse_spec(toks, i, depth, st, start, rs, pos)
        },
    decreases toks.len() - i,
{
    lemma_parse_within(toks, i, depth, st, start, rs, pos);
    let all = toks + extra;
    if i < toks.len() {
        let t = toks[i as int];
        assert(all[i as int] == t);
        if t.kind == TokenType::LPar {
            let bq = st.backquote && !st.comma;
            let sub = toks.subrange(i + 1 as int, toks.len() as int);
            assert(all.subrange(i + 1 as int, all.len() as int) =~= sub + extra);
            lemma_group_parse(sub, extra, 0, depth + 1, depth2 + 1, init_state(st.quote, bq), Some(t), rs, pos);
            lemma_parse_within(sub, 0, depth + 1, init_state(st.quote, bq), Some(t), rs, pos);
            let (r, pos1) = parse_spec(sub, 0, depth + 1, init_state(st.quote, bq), Some(t), rs, pos);
            if let Res::Done(Ok((parsed, consumed))) = r {
                let next = i + consumed + 1;
                assert(next <= toks.len());
                lemma_group_parse(toks, extra, next, depth, depth2, after_group(st, parsed), start, rs, pos1);
                lemma_parse_within(toks, next, depth, after_group(st, parsed), start, rs, pos1);
                if let Res::Done(Ok((_, n))) = parse_spec(toks, i, depth, st, start, rs, pos).0 {
                    lemma_balance_sub(toks, (i + 1) as int, 0, consumed as int);
                    assert(paren_balance(toks, i as int, i as int) == 0);
                    assert(paren_balance(toks, i as int, (i + 1) as int) == 1);
                    lemma_balance_add(toks, i as int, (i + 1) as int, next as int);
                    lemma_balance_add(toks, i as int, next as int, n as int);
                }
            }
        } else if t.kind == TokenType::RPar {
            assert(paren_balance(toks, i as int, i as int) == 0);
            assert(paren_balance(toks, i as int, (i + 1) as int) == -1);
        } else {
            lemma_simple_step(toks, i, depth, st, start, rs, pos);
            lemma_simple_step(all, i, depth2, st, start, rs, pos);
            if let Some((st2, pos2)) = simple_step(t, st, rs, pos) {
                lemma_group_parse(toks, extra, i + 1, depth, depth2, st2, start, rs, pos2);
                lemma_parse_within(toks, i + 1, depth, st2, start, rs, pos2);
                if let Res::Done(Ok((_, n))) = parse_spec(toks, i, depth, st, start, rs, pos).0 {
                    assert(paren_balance(toks, i as int, i as int) == 0);
                    assert(paren_balance(toks, i as int, (i + 1) as int) == 0);
                    lemma_balance_add(toks, i as int, (i + 1) as int, n as int);
                }
            }
        }
    }
}

/// At the top level, a parse of tokens that never close more than they open
/// reads all of them; with a `)` appended and inside a group, it reads that
/// `)` too and gives the same expression.
proof fn lemma_top_parse(
    toks: Seq<TokenV>,
    close: TokenV,
    open: TokenV,
    i: nat,
    st: PState,
    rs: Seq<Reply>,
    pos: nat,
)
    requires
        i <= toks.len(),
        close.kind == TokenType::RPar,
        never_overclosed(toks, i as int),
    ensures
        parse_spec(toks, i, 0, st, None, rs, pos).0 matches Res::Done(Ok((v, n))) ==> {
            &&& n == toks.len()
            &&& parse_spec(toks.push(close), i, 1, st, Some(open), rs, pos)
                == (Res::<ParseResult>::Done(Ok((v, n + 1))), parse_spec(toks, i, 0, st, None, rs, pos).1)
        },
    decreases toks.len() - i,
{
    let all = toks.push(close);
    if i == toks.len() {
        assert(all[i as int] == close);
    } else {
        let t = toks[i as int];
        assert(all[i as int] == t);
        if t.kind == TokenType::LPar {
            let bq = st.backquote && !st.comma;
            let sub = toks.subrange(i + 1 as int, toks.len() as int);
            assert(all.subrange(i + 1 as int, all.len() as int) =~= sub + seq![close]);
            lemma_group_parse(sub, seq![close], 0, 1, 2, init_state(st.quote, bq), Some(t), rs, pos);
            lemma_parse_within(sub, 0, 1, init_state(st.quote, bq), Some(t), rs, pos);
            let (r, pos1) = parse_spec(sub, 0, 1, init_state(st.quote, bq), Some(t), rs, pos);
            if let Res::Done(Ok((parsed, consumed))) = r {
                let next = i + consumed + 1;
                lemma_balance_sub(toks, (i + 1) as int, 0, consumed as int);
                assert(paren_balance(toks, i as int, i as int) == 0);
                assert(paren_balance(toks, i as int, (i + 1) as int) == 1);
                lemma_balance_add(toks, i as int, (i + 1) as int, next as int);
                assert forall|k: int| next <= k <= toks.len() implies #[trigger] paren_balance(toks, next as int, k) >= 0 by {
                    lemma_balance_add(toks, i as int, next as int, k);
                    assert(paren_balance(toks, i as int, k) >= 0);
                }
                lemma_top_parse(toks, close, open, next, after_group(st, parsed), rs, pos1);
            }
        } else if t.kind == TokenType::RPar {
            assert(paren_balance(toks, i as int, i as int) == 0);
            assert(paren_balance(toks, i as int, (i + 1) as int) == -1);
            assert(paren_balance(toks, i as int, (i + 1) as int) >= 0);
        } else {
            lemma_simple_step(toks, i, 0, st, None, rs, pos);
            lemma_simple_step(all, i, 1, st, Some(open), rs, pos);
            if let Some((st2, pos2)) = simple_step(t, st, rs, pos) {
                assert(paren_balance(toks, i as int, i as int) == 0);
                assert(paren_balance(toks, i as int, (i + 1) as int) == 0);
                assert forall|k: int| i + 1 <= k <= toks.len() implies #[trigger] paren_balance(toks, (i + 1) as int, k) >= 0 by {
                    lemma_balance_add(toks, i as int, (i + 1) as int, k);
                    assert(paren_balance(toks, i as int, k) >= 0);
                }
                lemma_top_parse(toks, close, open, i + 1, st2, rs, pos2);
            }
        }
    }
}

/// Wrapping tokens that never close more parentheses than they open in one
/// more pair of parentheses nests their parse one level deeper: where the
/// tokens parse to the expressions `items`, the wrapped tokens parse to the
/// single group of those expressions, reading the same replies.
pub proof fn law_parse_nests(ts: Seq<TokenV>, open: TokenV, close: TokenV, rs: Seq<Reply>, pos: nat)
    requires
        open.kind == TokenType::LPar,
        close.kind == TokenType::RPar,
        never_overclosed(ts, 0),
    ensures
        ({
            let (r, p) = parse_spec(ts, 0, 0, init_state(false, false), None, rs, pos);
            r matches Res::Done(Ok((SVal::Eval(items), _))) ==>
                parse_spec(seq![open] + ts + seq![close], 0, 0, init_state(false, false), None, rs, pos)
                    == (Res::<ParseResult>::Done(Ok((SVal::Eval(seq![SVal::Eval(items)]), (ts.len() + 2) as nat))), p)
        }),
{
    let w = seq![open] + ts + seq![close];
    lemma_top_parse(ts, close, open, 0, init_state(false, false), rs, pos);
    assert(w[0] == open);
    assert(w.subrange(1, w.len() as int) =~= ts.push(close));
    let (r, p) = parse_spec(ts, 0, 0, init_state(false, false), None, rs, pos);
    if let Res::Done(Ok((SVal::Eval(items), n))) = r {
        let st2 = after_group(init_state(false, false), SVal::Eval(items));
        assert(st2.out =~= seq![SVal::Eval(items)]);
        assert(parse_spec(w, (ts.len() + 2) as nat, 0, st2, None, rs, p)
            == (Res::<ParseResult>::Done(Ok((SVal::Eval(seq![SVal::Eval(items)]), (ts.len() + 2) as nat))), p));
    }
}

/// Two token sequences of the same kinds and texts, position by position;
/// their lines and columns may differ.
pub open spec fn same_shape(a: Seq<TokenV>, b: Seq<TokenV>) -> bool {
    &&& a.len() == b.len()
    &&& forall|k: int| 0 <= k < a.len() ==> (#[trigger] a[k]).kind == b[k].kind && a[k].expr == b[k].expr
}

proof fn lemma_balance_same_shape(a: Seq<TokenV>, b: Seq<TokenV>, i: int, j: int)
    requires
        same_shape(a, b),
        0 <= i,
        j <= a.len(),
    ensures
        paren_balance(a, i, j) == paren_balance(b, i, j),
    decreases j - i,
{
    if j > i {
        lemma_balance_same_shape(a, b, i, j - 1);
        assert(a[j - 1].kind == b[j - 1].kind);
    }
}

/// Lines and columns play no part in a parse that succeeds: they only go into
/// the message for an unclosed `(`.
proof fn lemma_parse_same_shape(
    a: Seq<TokenV>,
    b: Seq<TokenV>,
    i: nat,
    depth: nat,
    st: PState,
    start_a: Option<TokenV>,
    start_b: Option<TokenV>,
    rs: Seq<Reply>,
    pos: nat,
)
    requires
        same_shape(a, b),
        i <= a.len(),
    ensures
        parse_spec(a, i, depth, st, start_a, rs, pos).0 matches Res::Done(Ok(_)) ==> parse_spec(b, i, depth, st, start_b, rs, pos)
            == parse_spec(a, i, depth, st, start_a, rs, pos),
    decreases a.len() - i,
{
    if i < a.len() {
        let ta = a[i as int];
        let tb = b[i as int];
        assert(ta.kind == tb.kind && ta.expr == tb.expr);
        if ta.kind == TokenType::LPar {
            let bq = st.backquote && !st.comma;
            let sa = a.subrange(i + 1 as int, a.len() as int);
            let sb = b.subrange(i + 1 as int, b.len() as int);
            assert(same_shape(sa, sb)) by {
                assert forall|k: int| 0 <= k < sa.len() implies (#[trigger] sa[k]).kind == sb[k].kind && sa[k].expr == sb[k].expr by {
                    assert(sa[k] == a[i + 1 + k] && sb[k] == b[i + 1 + k]);
                }
            }
            lemma_parse_same_shape(sa, sb, 0, depth + 1, init_state(st.quote, bq), Some(ta), Some(tb), rs, pos);
            let (r, pos1) = parse_spec(sa, 0, depth + 1, init_state(st.quote, bq), Some(ta), rs, pos);
            if let Res::Done(Ok((parsed, consumed))) = r {
                let next = i + consumed + 1;
                lemma_parse_same_shape(a, b, if next > a.len() { a.len() } else { next }, depth, after_group(st, parsed), start_a, start_b, rs, pos1);
            }
        } else if ta.kind != TokenType::RPar {
            lemma_simple_step(a, i, depth, st, start_a, rs, pos);
            lemma_simple_step(b, i, depth, st, start_b, rs, pos);
            assert(simple_step(ta, st, rs, pos) == simple_step(tb, st, rs, pos));
            if let Some((st2, pos2)) = simple_step(ta, st, rs, pos) {
                lemma_parse_same_shape(a, b, i + 1, depth, st2, start_a, start_b, rs, pos2);
            }
        }
    }
}

/// Column `column` of line `line` once one character is put before the text:
/// only the first line moves.
pub open spec fn shift_col(line: nat, column: nat) -> nat {
    if line == 1 {
        column + 1
    } else {
        column
    }
}

/// A token as it stands once one character is put before the text.
pub open spec fn shift_token(t: TokenV) -> TokenV {
    TokenV { expr: t.expr, kind: t.kind, line: t.line, column: shift_col(t.line, t.column) }
}

/// Tokens as they stand once one character is put before the text.
pub open spec fn shift_tokens(ts: Seq<TokenV>) -> Seq<TokenV> {
    Seq::new(ts.len(), |k: int| shift_token(ts[k]))
}

pub open spec fn shift_mode(m: LexMode, line: nat) -> LexMode {
    match m {
        LexMode::Word(text, start) => LexMode::Word(text, shift_col(line, start)),
        LexMode::Number(text, float, start) => LexMode::Number(text, float, shift_col(line, start)),
        _ => m,
    }
}

/// The `(` token at the start of the first line.
pub open spec fn opening_token() -> TokenV {
    tok(seq!['('], TokenType::LPar, 1, 1)
}

/// `r` is the tokens `body` followed by one `)` token.
pub open spec fn body_then_close(r: Result<Seq<TokenV>, Seq<char>>, body: Seq<TokenV>) -> bool {
    &&& r is Ok
    &&& r->Ok_0.len() == body.len() + 1
    &&& r->Ok_0.take(body.len() as int) == body
    &&& r->Ok_0[body.len() as int].kind == TokenType::RPar
    &&& r->Ok_0[body.len() as int].expr == seq![')']
}

proof fn lemma_shift_push(acc: Seq<TokenV>, t: TokenV)
    ensures
        seq![opening_token()] + shift_tokens(acc.push(t)) == (seq![opening_token()] + shift_tokens(acc)).push(shift_token(t)),
{
    assert(seq![opening_token()] + shift_tokens(acc.push(t)) =~= (seq![opening_token()] + shift_tokens(acc)).push(shift_token(t)));
}

/// Tokenising the text between an added `(` and `)` goes as tokenising the
/// text alone, with the first line's columns one further on.
proof fn lemma_lex_wrapped(cs: Seq<char>, i: nat, line: nat, column: nat, acc: Seq<TokenV>, mode: LexMode)
    requires
        !cs.contains('"'),
        i <= cs.len(),
        line >= 1,
        !(mode is Quoted),
    ensures
        lex(cs, i, line, column, acc, mode) is Ok ==> body_then_close(
            lex(seq!['('] + cs + seq![')'], i + 1, line, shift_col(line, column), seq![opening_token()] + shift_tokens(acc),
                shift_mode(mode, line)),
            seq![opening_token()] + shift_tokens(lex(cs, i, line, column, acc, mode)->Ok_0),
        ),
    decreases cs.len() - i, mode_rank(mode),
{
    let w = seq!['('] + cs + seq![')'];
    let pre = seq![opening_token()] + shift_tokens(acc);
    let col2 = shift_col(line, column);
    assert(w.len() == cs.len() + 2);
    if i < cs.len() {
        assert(w[i + 1int] == cs[i as int]);
    } else {
        assert(w[i + 1int] == ')');
    }
    match mode {
        LexMode::Normal => {
            if i >= cs.len() {
                let r = tok(seq![')'], TokenType::RPar, line, col2);
                assert(lex(w, i + 1, line, col2, pre, LexMode::Normal) == lex(w, i + 2, line, col2 + 1, pre.push(r), LexMode::Normal));
                assert(lex(w, i + 2, line, col2 + 1, pre.push(r), LexMode::Normal) == Ok::<Seq<TokenV>, Seq<char>>(pre.push(r)));
                assert(pre.push(r).take(pre.len() as int) =~= pre);
            } else {
                let c = cs[i as int];
                if c == '(' || c == ')' || c == '-' || crate::parser::is_punct_char(c) {
                    let kind = if c == '(' { TokenType::LPar } else if c == ')' { TokenType::RPar } else { TokenType::Atom };
                    let tk = tok(seq![c], kind, line, column);
                    lemma_lex_wrapped(cs, i + 1, line, column + 1, acc.push(tk), LexMode::Normal);
                    lemma_shift_push(acc, tk);
                } else if c == '"' {
                    assert(cs.contains('"'));
                } else if crate::parser::is_word_char(c) {
                    lemma_lex_wrapped(cs, i + 1, line, column + 1, acc, LexMode::Word(seq![c], column));
                } else if is_digit(c) {
                    lemma_lex_wrapped(cs, i + 1, line, column + 1, acc, LexMode::Number(seq![c], false, column));
                } else if c == ' ' || c == '\t' {
                    lemma_lex_wrapped(cs, i + 1, line, column + 1, acc, LexMode::Normal);
                } else if c == '\n' {
                    lemma_lex_wrapped(cs, i + 1, line + 1, 1, acc, LexMode::Normal);
                } else if c == '\r' {
                    lemma_lex_wrapped(cs, i + 1, line, column, acc, LexMode::Normal);
                }
            }
        },
        LexMode::Word(text, start) => {
            if i < cs.len() && crate::parser::is_word_char(cs[i as int]) {
                lemma_lex_wrapped(cs, i + 1, line, column + 1, acc, LexMode::Word(text.push(cs[i as int]), start));
            } else {
                let tk = tok(text, TokenType::Atom, line, start);
                lemma_lex_wrapped(cs, i, line, column, acc.push(tk), LexMode::Normal);
                lemma_shift_push(acc, tk);
            }
        },
        LexMode::Number(text, float, start) => {
            if i < cs.len() && (is_digit(cs[i as int]) || cs[i as int] == '.') {
                lemma_lex_wrapped(cs, i + 1, line, column + 1, acc,
                    LexMode::Number(text.push(cs[i as int]), float || cs[i as int] == '.', start));
            } else {
                let kind = if float { TokenType::Float } else { TokenType::Int };
                let tk = tok(text, kind, line, start);
                lemma_lex_wrapped(cs, i, line, column, acc.push(tk), LexMode::Normal);
                lemma_shift_push(acc, tk);
            }
        },
        LexMode::Quoted(_, _, _) => {},
    }
}

/// Wrapping source text in `(` and `)` nests its parse one level deeper, where
/// the text holds no `"` and its tokens never close more parentheses than they
/// open. The wrapped text tokenises to a `(`, the text's tokens with the first
/// line's columns one further on, and a `)`; and where the text parses to the
/// expressions `items`, the wrapped text parses to the single group of them,
/// taking two more tokens and reading the same replies.
pub proof fn law_parse_nests_in_text(s: Seq<char>, rs: Seq<Reply>, pos: nat)
    requires
        !s.contains('"'),
        tokenise_spec(s) is Ok,
        never_overclosed(tokenise_spec(s)->Ok_0, 0),
    ensures
        ({
            let ts = tokenise_spec(s)->Ok_0;
            let w = tokenise_spec(seq!['('] + s + seq![')']);
            &&& w is Ok
            &&& w->Ok_0.len() == ts.len() + 2
            &&& w->Ok_0.take(ts.len() + 1int) == seq![opening_token()] + shift_tokens(ts)
            &&& w->Ok_0.last().kind == TokenType::RPar
            &&& w->Ok_0.last().expr == seq![')']
            &&& (parse_spec(ts, 0, 0, init_state(false, false), None, rs, pos).0 matches Res::Done(Ok((SVal::Eval(items), _)))
                ==> parse_spec(w->Ok_0, 0, 0, init_state(false, false), None, rs, pos) == (
                    Res::<ParseResult>::Done(Ok((SVal::Eval(seq![SVal::Eval(items)]), (ts.len() + 2) as nat))),
                    parse_spec(ts, 0, 0, init_state(false, false), None, rs, pos).1,
                ))
        }),
{
    let ts = tokenise_spec(s)->Ok_0;
    let cs = seq!['('] + s + seq![')'];
    assert(cs[0] == '(');
    lemma_lex_wrapped(s, 0, 1, 1, Seq::empty(), LexMode::Normal);
    assert(seq![opening_token()] + shift_tokens(Seq::<TokenV>::empty()) =~= seq![opening_token()]);
    assert(tokenise_spec(cs) == lex(cs, 1, 1, 2, seq![opening_token()], LexMode::Normal));
    let ws = tokenise_spec(cs)->Ok_0;
    let body = seq![opening_token()] + shift_tokens(ts);
    let close = ws[body.len() as int];
    assert(ws =~= seq![opening_token()] + shift_tokens(ts) + seq![close]) by {
        assert(ws.take(body.len() as int) == body);
        assert forall|k: int| 0 <= k < body.len() implies ws[k] == body[k] by {
            assert(ws.take(body.len() as int)[k] == ws[k]);
        }
    }
    let sh = shift_tokens(ts);
    assert(same_shape(ts, sh));
    assert(never_overclosed(sh, 0)) by {
        assert forall|k: int| 0 <= k <= sh.len() implies #[trigger] paren_balance(sh, 0, k) >= 0 by {
            lemma_balance_same_shape(ts, sh, 0, k);
            assert(paren_balance(ts, 0, k) >= 0);
        }
    }
    lemma_parse_same_shape(ts, sh, 0, 0, init_state(false, false), None, None, rs, pos);
    law_parse_nests(sh, opening_token(), close, rs, pos);
}

//////////////////////////////////////////////////////////////////////////////
// What the builtins compute from their evaluated operands
//////////////////////////////////////////////////////////////////////////////

/// `>` on two integers is the strict order of the integers: `(> a b)` is true
/// exactly when `a` is greater than `b`, so `(> n n)` is false and `(> a b)`
/// and `(> b a)` are never both true. Operands after the second are ignored.
pub proof fn law_gt_orders_integers(a: i64, b: i64, rest: Seq<SVal>, env: Env, rs: Seq<Reply>, pos: nat)
    ensures
        strict_spec(Builtin::Gt, seq![SVal::Int(a), SVal::Int(b)] + rest, env, rs, pos) == done(SVal::Bool(a > b), env, pos),
        strict_spec(Builtin::Gt, seq![SVal::Int(a), SVal::Int(a)] + rest, env, rs, pos).res == Res::Done(SVal::Bool(false)),
        !(strict_spec(Builtin::Gt, seq![SVal::Int(a), SVal::Int(b)], env, rs, pos).res == Res::Done(SVal::Bool(true))
            && strict_spec(Builtin::Gt, seq![SVal::Int(b), SVal::Int(a)], env, rs, pos).res == Res::Done(SVal::Bool(true))),
{
    assert((seq![SVal::Int(a), SVal::Int(b)] + rest)[0] == SVal::Int(a));
    assert((seq![SVal::Int(a), SVal::Int(b)] + rest)[1] == SVal::Int(b));
    assert((seq![SVal::Int(a), SVal::Int(a)] + rest)[1] == SVal::Int(a));
}

/// `and`, `or` and `not` are the logical operations on the truth of their
/// operands: `(and x y)` is true when both are true, `(or x y)` when either
/// is, and `(not x)` when `x` is not. A true first operand makes `or` true
/// and a false one makes `and` false, whatever follows.
pub proof fn law_logic_on_truth(x: SVal, y: SVal, rest: Seq<SVal>, env: Env, rs: Seq<Reply>, pos: nat)
    ensures
        strict_spec(Builtin::And, seq![x, y] + rest, env, rs, pos) == done(SVal::Bool(truthy(x) && truthy(y)), env, pos),
        strict_spec(Builtin::Or, seq![x, y] + rest, env, rs, pos) == done(SVal::Bool(truthy(x) || truthy(y)), env, pos),
        strict_spec(Builtin::Not, seq![x] + rest, env, rs, pos) == done(SVal::Bool(!truthy(x)), env, pos),
        truthy(x) ==> strict_spec(Builtin::Or, seq![x], env, rs, pos) == done(SVal::Bool(true), env, pos),
        !truthy(x) ==> strict_spec(Builtin::And, seq![x], env, rs, pos) == done(SVal::Bool(false), env, pos),
{
    assert((seq![x, y] + rest)[0] == x);
    assert((seq![x, y] + rest)[1] == y);
    assert((seq![x] + rest)[0] == x);
}

/// The host's operation for a builtin on two floats.
pub open spec fn float_op_of(b: Builtin) -> FloatOp {
    if b == Builtin::Add {
        FloatOp::Add
    } else if b == Builtin::Sub {
        FloatOp::Sub
    } else if b == Builtin::Mul {
        FloatOp::Mul
    } else {
        FloatOp::Div
    }
}

/// `+`, `-`, `*` and `/` on two floats ask the host for that operation on the
/// operands in the order written, and give the number `r` the host answers.
pub proof fn law_float_arith_in_order(b: Builtin, x: u64, y: u64, r: u64, rest: Seq<SVal>, env: Env, rs: Seq<Reply>, pos: nat)
    requires
        b == Builtin::Add || b == Builtin::Sub || b == Builtin::Mul || b == Builtin::Div,
    ensures
        pos >= rs.len() ==> strict_spec(b, seq![SVal::Float(x), SVal::Float(y)] + rest, env, rs, pos)
            == need::<SVal>(SRequest::FloatArith(float_op_of(b), x, y), env, pos),
        pos < rs.len() && rs[pos as int] == Reply::Bits(r) ==> strict_spec(b, seq![SVal::Float(x), SVal::Float(y)] + rest, env, rs, pos)
            == done(SVal::Float(r), env, pos + 1),
{
    assert((seq![SVal::Float(x), SVal::Float(y)] + rest)[0] == SVal::Float(x));
    assert((seq![SVal::Float(x), SVal::Float(y)] + rest)[1] == SVal::Float(y));
}

/// `+`, `-` and `*` on two integers are the sum, difference and product, or
/// an overflow fault where that falls outside `i64`.
pub proof fn law_int_arith(a: i64, b: i64, rest: Seq<SVal>, env: Env, rs: Seq<Reply>, pos: nat)
    ensures
        strict_spec(Builtin::Add, seq![SVal::Int(a), SVal::Int(b)] + rest, env, rs, pos) == (if i64::MIN <= a + b <= i64::MAX {
            done(SVal::Int((a + b) as i64), env, pos)
        } else {
            fail(SFault::Overflow(ArithOp::Add), env, pos)
        }),
        strict_spec(Builtin::Sub, seq![SVal::Int(a), SVal::Int(b)] + rest, env, rs, pos) == (if i64::MIN <= a - b <= i64::MAX {
            done(SVal::Int((a - b) as i64), env, pos)
        } else {
            fail(SFault::Overflow(ArithOp::Sub), env, pos)
        }),
        strict_spec(Builtin::Mul, seq![SVal::Int(a), SVal::Int(b)] + rest, env, rs, pos) == (if i64::MIN <= a * b <= i64::MAX {
            done(SVal::Int((a * b) as i64), env, pos)
        } else {
            fail(SFault::Overflow(ArithOp::Mul), env, pos)
        }),
{
    assert((seq![SVal::Int(a), SVal::Int(b)] + rest)[0] == SVal::Int(a));
    assert((seq![SVal::Int(a), SVal::Int(b)] + rest)[1] == SVal::Int(b));
}

/// `@` on a list and an index within it gives the element at that index,
/// counted from the front, and on a string and an index within it the
/// character there (for an index that fits in `usize`).
pub proof fn law_peek_indexes_from_front(l: Seq<SVal>, s: Seq<char>, i: i64, rest: Seq<SVal>, env: Env, rs: Seq<Reply>, pos: nat)
    ensures
        0 <= i < l.len() && i <= usize::MAX ==> strict_spec(Builtin::Peek, seq![SVal::List(l), SVal::Int(i)] + rest, env, rs, pos) == done(l[i as int], env, pos),
        0 <= i < s.len() && i <= usize::MAX ==> strict_spec(Builtin::Peek, seq![SVal::Str(s), SVal::Int(i)] + rest, env, rs, pos)
            == done(SVal::Str(seq![s[i as int]]), env, pos),
{
    assert((seq![SVal::List(l), SVal::Int(i)] + rest)[0] == SVal::List(l));
    assert((seq![SVal::List(l), SVal::Int(i)] + rest)[1] == SVal::Int(i));
    assert((seq![SVal::Str(s), SVal::Int(i)] + rest)[0] == SVal::Str(s));
    assert((seq![SVal::Str(s), SVal::Int(i)] + rest)[1] == SVal::Int(i));
    if 0 <= i && i <= usize::MAX {
        assert((i as usize) as int == i as int);
    }
}

/// `>` on two floats asks the host whether the first operand is greater than
/// the second, in the order written, and gives its answer `r`.
pub proof fn law_gt_floats_in_order(x: u64, y: u64, r: bool, rest: Seq<SVal>, env: Env, rs: Seq<Reply>, pos: nat)
    ensures
        pos >= rs.len() ==> strict_spec(Builtin::Gt, seq![SVal::Float(x), SVal::Float(y)] + rest, env, rs, pos)
            == need::<SVal>(SRequest::FloatGreater(x, y), env, pos),
        pos < rs.len() && rs[pos as int] == Reply::Flag(r) ==> strict_spec(Builtin::Gt, seq![SVal::Float(x), SVal::Float(y)] + rest, env, rs, pos)
            == done(SVal::Bool(r), env, pos + 1),
{
    assert((seq![SVal::Float(x), SVal::Float(y)] + rest)[0] == SVal::Float(x));
    assert((seq![SVal::Float(x), SVal::Float(y)] + rest)[1] == SVal::Float(y));
}

/// `/` on two integers asks the host for the quotient of the first by the
/// second, in the order written, and gives the number `r` it answers.
pub proof fn law_int_division_in_order(a: i64, b: i64, r: u64, rest: Seq<SVal>, env: Env, rs: Seq<Reply>, pos: nat)
    ensures
        pos >= rs.len() ==> strict_spec(Builtin::Div, seq![SVal::Int(a), SVal::Int(b)] + rest, env, rs, pos)
            == need::<SVal>(SRequest::IntQuotient(a, b), env, pos),
        pos < rs.len() && rs[pos as int] == Reply::Bits(r) ==> strict_spec(Builtin::Div, seq![SVal::Int(a), SVal::Int(b)] + rest, env, rs, pos)
            == done(SVal::Float(r), env, pos + 1),
{
    assert((seq![SVal::Int(a), SVal::Int(b)] + rest)[0] == SVal::Int(a));
    assert((seq![SVal::Int(a), SVal::Int(b)] + rest)[1] == SVal::Int(b));
}

/// `+` on two strings is their concatenation, first operand first; `-` and
/// `*` on strings are type errors.
pub proof fn law_string_concatenation(a: Seq<char>, b: Seq<char>, rest: Seq<SVal>, env: Env, rs: Seq<Reply>, pos: nat)
    ensures
        strict_spec(Builtin::Add, seq![SVal::Str(a), SVal::Str(b)] + rest, env, rs, pos) == done(SVal::Str(a + b), env, pos),
        strict_spec(Builtin::Sub, seq![SVal::Str(a), SVal::Str(b)] + rest, env, rs, pos) == fail::<SVal>(SFault::TypeError, env, pos),
        strict_spec(Builtin::Mul, seq![SVal::Str(a), SVal::Str(b)] + rest, env, rs, pos) == fail::<SVal>(SFault::TypeError, env, pos),
{
    assert((seq![SVal::Str(a), SVal::Str(b)] + rest)[0] == SVal::Str(a));
    assert((seq![SVal::Str(a), SVal::Str(b)] + rest)[1] == SVal::Str(b));
}

/// `=` on an integer, string or boolean and any other value is whether they
/// are the same value; no reply is read.
pub proof fn law_eq_on_plain_values(x: SVal, y: SVal, rest: Seq<SVal>, env: Env, rs: Seq<Reply>, pos: nat)
    requires
        plain(x) || plain(y),
    ensures
        strict_spec(Builtin::Eq, seq![x, y] + rest, env, rs, pos) == done(SVal::Bool(x == y), env, pos),
{
    assert((seq![x, y] + rest)[0] == x);
    assert((seq![x, y] + rest)[1] == y);
}

/// `@` on a list and an index at or past its end is an index fault naming
/// the length and the index; on a dictionary (with distinct keys) and a key
/// it holds, the value bound to that key; on a key it lacks, a fault.
pub proof fn law_peek_bounds_and_keys(
    l: Seq<SVal>,
    i: i64,
    d: Seq<(Seq<char>, SVal)>,
    j: int,
    k: Seq<char>,
    rest: Seq<SVal>,
    env: Env,
    rs: Seq<Reply>,
    pos: nat,
)
    requires
        keys_distinct(d),
    ensures
        0 <= i && l.len() <= i <= usize::MAX && l.len() <= usize::MAX ==> strict_spec(Builtin::Peek, seq![SVal::List(l), SVal::Int(i)] + rest, env, rs, pos)
            == fail::<SVal>(SFault::IndexOutOfBounds(l.len() as usize, i as usize), env, pos),
        0 <= j < d.len() ==> strict_spec(Builtin::Peek, seq![SVal::Dict(d), SVal::Str(d[j].0)] + rest, env, rs, pos) == done(d[j].1, env, pos),
        !has_key(d, k) ==> strict_spec(Builtin::Peek, seq![SVal::Dict(d), SVal::Str(k)] + rest, env, rs, pos)
            == fail::<SVal>(SFault::UnwrapNone, env, pos),
{
    assert((seq![SVal::List(l), SVal::Int(i)] + rest)[0] == SVal::List(l));
    assert((seq![SVal::List(l), SVal::Int(i)] + rest)[1] == SVal::Int(i));
    if 0 <= j < d.len() {
        assert((seq![SVal::Dict(d), SVal::Str(d[j].0)] + rest)[0] == SVal::Dict(d));
        assert((seq![SVal::Dict(d), SVal::Str(d[j].0)] + rest)[1] == SVal::Str(d[j].0));
        lemma_dict_get_entry(d, j);
    }
    assert((seq![SVal::Dict(d), SVal::Str(k)] + rest)[0] == SVal::Dict(d));
    assert((seq![SVal::Dict(d), SVal::Str(k)] + rest)[1] == SVal::Str(k));
    if !has_key(d, k) {
        lemma_dict_get_absent(d, k);
    }
    if 0 <= i && i <= usize::MAX && l.len() <= usize::MAX {
        assert((i as usize) as int == i as int);
    }
}

/// `len` of a list is its number of elements.
pub proof fn law_len_of_list(l: Seq<SVal>, rest: Seq<SVal>, env: Env, rs: Seq<Reply>, pos: nat)
    requires
        l.len() <= i64::MAX,
        l.len() <= usize::MAX,
    ensures
        strict_spec(Builtin::Len, seq![SVal::List(l)] + rest, env, rs, pos) == done(SVal::Int(l.len() as i64), env, pos),
{
    assert((seq![SVal::List(l)] + rest)[0] == SVal::List(l));
}

/// `dict` of one key and a value binds that key to that value; a second
/// value for the same key replaces the first.
pub proof fn law_dict_binds(k: Seq<char>, v: SVal, w: SVal, env: Env, rs: Seq<Reply>, pos: nat)
    ensures
        strict_spec(Builtin::Dict, seq![SVal::Str(k), v], env, rs, pos) == done(SVal::Dict(seq![(k, v)]), env, pos),
        strict_spec(Builtin::Dict, seq![SVal::Str(k), v, SVal::Str(k), w], env, rs, pos) == done(SVal::Dict(seq![(k, w)]), env, pos),
{
    let e: Seq<(Seq<char>, SVal)> = Seq::empty();
    assert(key_index(e, k, 0) is None);
    assert(dict_insert(e, k, v) =~= seq![(k, v)]);
    assert(key_index(seq![(k, v)], k, 0) == Some(0nat));
    assert(dict_insert(seq![(k, v)], k, w) =~= seq![(k, w)]);
    let one = seq![SVal::Str(k), v];
    assert(dict_spec(one, 2, k, seq![(k, v)], env, pos) == done(SVal::Dict(seq![(k, v)]), env, pos));
    assert(dict_spec(one, 1, k, e, env, pos) == done(SVal::Dict(seq![(k, v)]), env, pos));
    assert(dict_spec(one, 0, Seq::empty(), e, env, pos) == done(SVal::Dict(seq![(k, v)]), env, pos));
    let two = seq![SVal::Str(k), v, SVal::Str(k), w];
    assert(dict_spec(two, 4, k, seq![(k, w)], env, pos) == done(SVal::Dict(seq![(k, w)]), env, pos));
    assert(dict_spec(two, 3, k, seq![(k, v)], env, pos) == done(SVal::Dict(seq![(k, w)]), env, pos));
    assert(dict_spec(two, 2, k, seq![(k, v)], env, pos) == done(SVal::Dict(seq![(k, w)]), env, pos));
    assert(dict_spec(two, 1, k, e, env, pos) == done(SVal::Dict(seq![(k, w)]), env, pos));
    assert(dict_spec(two, 0, Seq::empty(), e, env, pos) == done(SVal::Dict(seq![(k, w)]), env, pos));
}

/// Whether `d` has an entry with key `k`.
pub open spec fn has_key(d: Seq<(Seq<char>, SVal)>, k: Seq<char>) -> bool {
    exists|j: int| 0 <= j < d.len() && d[j].0 == k
}

/// Whether `d` holds the entry `e`.
pub open spec fn has_entry(d: Seq<(Seq<char>, SVal)>, e: (Seq<char>, SVal)) -> bool {
    exists|j: int| 0 <= j < d.len() && d[j] == e
}

/// Two dictionaries bind the same keys to the same values, in any order.
pub open spec fn same_bindings(x: Seq<(Seq<char>, SVal)>, y: Seq<(Seq<char>, SVal)>) -> bool {
    &&& forall|i: int| 0 <= i < x.len() ==> has_entry(y, #[trigger] x[i])
    &&& forall|j: int| 0 <= j < y.len() ==> has_entry(x, #[trigger] y[j])
}

/// A value that `=` compares without the host and without looking inside it.
pub open spec fn plain(v: SVal) -> bool {
    v is Int || v is Str || v is Bool
}

pub open spec fn keys_of(d: Seq<(Seq<char>, SVal)>) -> Seq<Seq<char>> {
    Seq::new(d.len(), |i: int| d[i].0)
}

proof fn lemma_dict_get_entry(d: Seq<(Seq<char>, SVal)>, j: int)
    requires
        keys_distinct(d),
        0 <= j < d.len(),
    ensures
        dict_get(d, d[j].0) == Some(d[j].1),
{
    lemma_key_index_found(d, d[j].0, 0);
    lemma_key_index_absent(d, d[j].0, 0);
}

proof fn lemma_dict_get_absent(d: Seq<(Seq<char>, SVal)>, k: Seq<char>)
    requires
        !has_key(d, k),
    ensures
        dict_get(d, k) is None,
{
    lemma_key_index_found(d, k, 0);
}

/// Two dictionaries with distinct keys, of the same size, where every key of
/// the first is a key of the second, have the same keys.
proof fn lemma_same_keys(x: Seq<(Seq<char>, SVal)>, y: Seq<(Seq<char>, SVal)>, j: int)
    requires
        keys_distinct(x),
        keys_distinct(y),
        x.len() == y.len(),
        forall|i: int| 0 <= i < x.len() ==> has_key(y, #[trigger] x[i].0),
        0 <= j < y.len(),
    ensures
        has_key(x, y[j].0),
{
    if !has_key(x, y[j].0) {
        let kx = keys_of(x);
        let ky = keys_of(y);
        assert(kx.no_duplicates());
        assert(ky.no_duplicates());
        kx.unique_seq_to_set();
        ky.unique_seq_to_set();
        assert(kx.to_set().subset_of(ky.to_set())) by {
            assert forall|e: Seq<char>| kx.to_set().contains(e) implies ky.to_set().contains(e) by {
                let i = choose|i: int| 0 <= i < kx.len() && kx[i] == e;
                assert(has_key(y, x[i].0));
                let m = choose|m: int| 0 <= m < y.len() && y[m].0 == x[i].0;
                assert(ky[m] == e);
            }
        }
        assert(ky.to_set().contains(y[j].0)) by {
            assert(ky[j] == y[j].0);
        }
        assert(!kx.to_set().contains(y[j].0));
        broadcast use vstd::seq_lib::seq_to_set_is_finite;
        kx.to_set().lemma_subset_not_in_lt(ky.to_set(), y[j].0);
    }
}

/// Comparing entries from position `i` never answers "equal" when the entry
/// at `m` has a key that `y` lacks.
proof fn lemma_dict_entries_missing(x: Seq<(Seq<char>, SVal)>, y: Seq<(Seq<char>, SVal)>, i: nat, m: int, rs: Seq<Reply>, pos: nat)
    requires
        i <= m < x.len(),
        !has_key(y, x[m].0),
    ensures
        equal_dict_spec(x, y, i, rs, pos).0 != Res::<bool>::Done(true),
    decreases x.len() - i,
{
    if i == m {
        lemma_dict_get_absent(y, x[m].0);
    } else {
        match dict_get(y, x[i as int].0) {
            None => {},
            Some(w) => {
                let (r, pos1) = equal_spec(x[i as int].1, w, rs, pos);
                if r == Res::<bool>::Done(true) {
                    lemma_dict_entries_missing(x, y, i + 1, m, rs, pos1);
                }
            },
        }
    }
}

/// Dictionaries are equal only as maps: where either of two dictionaries
/// (with distinct keys, as `dict` builds them) has a key that the other
/// lacks, `=` never answers that they are equal.
pub proof fn law_dict_equality_needs_same_keys(x: Seq<(Seq<char>, SVal)>, y: Seq<(Seq<char>, SVal)>, k: Seq<char>, rs: Seq<Reply>, pos: nat)
    requires
        keys_distinct(x),
        keys_distinct(y),
        has_key(x, k) != has_key(y, k),
    ensures
        equal_spec(SVal::Dict(x), SVal::Dict(y), rs, pos).0 != Res::<bool>::Done(true),
        equal_spec(SVal::Dict(y), SVal::Dict(x), rs, pos).0 != Res::<bool>::Done(true),
{
    if x.len() == y.len() {
        // one of them lacks a key of the other; then the other way round too
        let (a, b) = if has_key(x, k) { (x, y) } else { (y, x) };
        let m = choose|m: int| 0 <= m < a.len() && a[m].0 == k;
        assert(!has_key(b, a[m].0));
        lemma_dict_entries_missing(a, b, 0, m, rs, pos);
        // and `b` has a key that `a` lacks
        if forall|i: int| 0 <= i < b.len() ==> has_key(a, #[trigger] b[i].0) {
            lemma_same_keys(b, a, m);
        }
        let n = choose|n: int| 0 <= n < b.len() && !has_key(a, #[trigger] b[n].0);
        lemma_dict_entries_missing(b, a, 0, n, rs, pos);
    }
}

proof fn lemma_plain_equal(v: SVal, w: SVal, rs: Seq<Reply>, pos: nat)
    requires
        plain(v),
    ensures
        equal_spec(v, w, rs, pos) == (Res::<bool>::Done(v == w), pos),
{
}

proof fn lemma_dict_entries_plain(x: Seq<(Seq<char>, SVal)>, y: Seq<(Seq<char>, SVal)>, i: nat, rs: Seq<Reply>, pos: nat)
    requires
        keys_distinct(y),
        i <= x.len(),
        forall|j: int| 0 <= j < x.len() ==> plain(#[trigger] x[j].1),
    ensures
        equal_dict_spec(x, y, i, rs, pos) == (Res::<bool>::Done(forall|j: int| i <= j < x.len() ==> has_entry(y, #[trigger] x[j])), pos),
    decreases x.len() - i,
{
    if i < x.len() {
        lemma_dict_entries_plain(x, y, i + 1, rs, pos);
        let e = x[i as int];
        lemma_key_index_found(y, e.0, 0);
        match key_index(y, e.0, 0) {
            None => {
                lemma_key_index_absent(y, e.0, 0);
                assert(!has_entry(y, e));
            },
            Some(jj) => {
                let w = y[jj as int].1;
                lemma_plain_equal(e.1, w, rs, pos);
                if e.1 == w {
                    assert(y[jj as int] == e);
                    assert(has_entry(y, e));
                } else {
                    assert(!has_entry(y, e)) by {
                        if has_entry(y, e) {
                            let j2 = choose|j2: int| 0 <= j2 < y.len() && y[j2] == e;
                            assert(y[j2].0 == y[jj as int].0);
                        }
                    }
                }
            },
        }
        if forall|j: int| i <= j < x.len() ==> has_entry(y, #[trigger] x[j]) {
            assert(has_entry(y, x[i as int]));
        }
        if !has_entry(y, e) {
            assert(!(forall|j: int| i <= j < x.len() ==> has_entry(y, #[trigger] x[j])));
        }
    }
}

/// Two dictionaries with distinct keys whose values are integers, strings or
/// booleans are equal under `=` exactly when they bind the same keys to the
/// same values, whatever the order of their entries; no reply is read.
pub proof fn law_dict_equality_is_map_equality(x: Seq<(Seq<char>, SVal)>, y: Seq<(Seq<char>, SVal)>, rs: Seq<Reply>, pos: nat)
    requires
        keys_distinct(x),
        keys_distinct(y),
        forall|j: int| 0 <= j < x.len() ==> plain(#[trigger] x[j].1),
    ensures
        equal_spec(SVal::Dict(x), SVal::Dict(y), rs, pos) == (Res::<bool>::Done(same_bindings(x, y)), pos),
{
    if same_bindings(x, y) {
        // the same keys, so the same number of them
        let kx = keys_of(x);
        let ky = keys_of(y);
        assert(kx.no_duplicates());
        assert(ky.no_duplicates());
        kx.unique_seq_to_set();
        ky.unique_seq_to_set();
        assert(kx.to_set() =~= ky.to_set()) by {
            assert forall|e: Seq<char>| kx.to_set().contains(e) implies ky.to_set().contains(e) by {
                let i = choose|i: int| 0 <= i < kx.len() && kx[i] == e;
                assert(has_entry(y, x[i]));
                let m = choose|m: int| 0 <= m < y.len() && y[m] == x[i];
                assert(ky[m] == e);
            }
            assert forall|e: Seq<char>| ky.to_set().contains(e) implies kx.to_set().contains(e) by {
                let i = choose|i: int| 0 <= i < ky.len() && ky[i] == e;
                assert(has_entry(x, y[i]));
                let m = choose|m: int| 0 <= m < x.len() && x[m] == y[i];
                assert(kx[m] == e);
            }
        }
        lemma_dict_entries_plain(x, y, 0, rs, pos);
    } else if x.len() == y.len() {
        lemma_dict_entries_plain(x, y, 0, rs, pos);
        if forall|j: int| 0 <= j < x.len() ==> has_entry(y, #[trigger] x[j]) {
            // then every entry of `y` is one of `x` too
            assert forall|j: int| 0 <= j < y.len() implies has_entry(x, #[trigger] y[j]) by {
                assert forall|i: int| 0 <= i < x.len() implies has_key(y, #[trigger] x[i].0) by {
                    assert(has_entry(y, x[i]));
                    let m = choose|m: int| 0 <= m < y.len() && y[m] == x[i];
                    assert(y[m].0 == x[i].0);
                }
                lemma_same_keys(x, y, j);
                let i = choose|i: int| 0 <= i < x.len() && x[i].0 == y[j].0;
                assert(has_entry(y, x[i]));
                let m = choose|m: int| 0 <= m < y.len() && y[m] == x[i];
                assert(y[m].0 == y[j].0);
                assert(m == j);
            }
        }
    }
}

//////////////////////////////////////////////////////////////////////////////
// Formatting
//////////////////////////////////////////////////////////////////////////////

/// A value that evaluates to itself: neither an atom, which is looked up, nor
/// a call.
pub open spec fn self_evaluating(v: SVal) -> bool {
    !(v is Atom) && !(v is Eval)
}

/// Formatting two values that evaluate to themselves gives the text of the
/// first followed by the text of the second, as formatting each in turn does.
pub proof fn law_fmt_concatenates(fuel: nat, a: SVal, b: SVal, env: Env, rt: SRuntime, rs: Seq<Reply>, pos: nat)
    requires
        self_evaluating(a),
        self_evaluating(b),
    ensures
        ({
            let sa = fmt_spec(fuel, seq![a], env, rt, rs, pos);
            let sb = fmt_spec(fuel, seq![b], sa.env, rt, rs, sa.pos);
            sa.res matches Res::Done(SVal::Str(ta)) ==> (sb.res matches Res::Done(SVal::Str(tb)) ==>
                fmt_spec(fuel, seq![a, b], env, rt, rs, pos) == done(SVal::Str(ta + tb), sb.env, sb.pos))
        }),
{
    if fuel > 0 {
        let oa = operands_spec(fuel, seq![a], 0, Seq::empty(), env, rt, rs, pos);
        assert(eval_spec(fuel, a, env, rt, rs, pos) == done(a, env, pos));
        assert(operands_spec(fuel, seq![a], 1, seq![a], env, rt, rs, pos) == done(seq![a], env, pos));
        assert(oa == done(seq![a], env, pos));
        let fa = fmt_one_spec(fuel, a, env, rt, rs, pos);
        assert(fmt_vals_spec(fuel, seq![a], 0, Seq::empty(), env, rt, rs, pos) == (match fa.res {
            Res::Done(piece) => fmt_vals_spec(fuel, seq![a], 1, Seq::<char>::empty() + piece, fa.env, rt, rs, fa.pos),
            _ => fa,
        }));
        if fa.res is Done {
            let ta = fa.res->Done_0;
            assert(Seq::<char>::empty() + ta =~= ta);
            let env1 = fa.env;
            let pos1 = fa.pos;
            assert(eval_spec(fuel, b, env1, rt, rs, pos1) == done(b, env1, pos1));
            assert(operands_spec(fuel, seq![b], 1, seq![b], env1, rt, rs, pos1) == done(seq![b], env1, pos1));
            let fb = fmt_one_spec(fuel, b, env1, rt, rs, pos1);
            assert(eval_spec(fuel, b, env, rt, rs, pos) == done(b, env, pos));
            assert(operands_spec(fuel, seq![a, b], 2, seq![a, b], env, rt, rs, pos) == done(seq![a, b], env, pos));
            assert(seq![a].push(b) =~= seq![a, b]);
            assert(operands_spec(fuel, seq![a, b], 1, seq![a], env, rt, rs, pos) == done(seq![a, b], env, pos));
            assert(operands_spec(fuel, seq![a, b], 0, Seq::empty(), env, rt, rs, pos) == done(seq![a, b], env, pos));
            if fb.res is Done {
                let tb = fb.res->Done_0;
                assert(Seq::<char>::empty() + tb =~= tb);
                assert(fmt_vals_spec(fuel, seq![b], 0, Seq::empty(), env1, rt, rs, pos1)
                    == fmt_vals_spec(fuel, seq![b], 1, tb, fb.env, rt, rs, fb.pos));
                assert(fmt_vals_spec(fuel, seq![a, b], 2, ta + tb, fb.env, rt, rs, fb.pos) == done(ta + tb, fb.env, fb.pos));
                assert(fmt_vals_spec(fuel, seq![a, b], 1, ta, env1, rt, rs, pos1)
                    == fmt_vals_spec(fuel, seq![a, b], 2, ta + tb, fb.env, rt, rs, fb.pos));
                assert(fmt_vals_spec(fuel, seq![a, b], 0, Seq::empty(), env, rt, rs, pos)
                    == fmt_vals_spec(fuel, seq![a, b], 1, ta, env1, rt, rs, pos1));
            }
        }
    }
}

//////////////////////////////////////////////////////////////////////////////
// Dictionaries
//////////////////////////////////////////////////////////////////////////////

proof fn lemma_key_index_same_keys(d: Seq<(Seq<char>, SVal)>, d2: Seq<(Seq<char>, SVal)>, k: Seq<char>, j: nat)
    requires
        d2.len() == d.len(),
        forall|i: int| 0 <= i < d.len() ==> #[trigger] d2[i].0 == d[i].0,
    ensures
        key_index(d2, k, j) == key_index(d, k, j),
    decreases d.len() - j,
{
    if j < d.len() {
        lemma_key_index_same_keys(d, d2, k, j + 1);
    }
}

proof fn lemma_key_index_push(d: Seq<(Seq<char>, SVal)>, e: (Seq<char>, SVal), k: Seq<char>, j: nat)
    requires
        j <= d.len(),
    ensures
        key_index(d.push(e), k, j) == (match key_index(d, k, j) {
            Some(i) => Some(i),
            None => if e.0 == k { Some(d.len()) } else { None },
        }),
    decreases d.len() - j,
{
    let d2 = d.push(e);
    if j < d.len() {
        assert(d2[j as int] == d[j as int]);
        lemma_key_index_push(d, e, k, j + 1);
    } else {
        assert(d2[j as int] == e);
        assert(key_index(d2, k, j + 1) is None);
    }
}

proof fn lemma_key_index_found(d: Seq<(Seq<char>, SVal)>, k: Seq<char>, j: nat)
    ensures
        key_index(d, k, j) matches Some(i) ==> j <= i < d.len() && d[i as int].0 == k,
    decreases d.len() - j,
{
    if j < d.len() {
        lemma_key_index_found(d, k, j + 1);
    }
}

proof fn lemma_key_index_absent(d: Seq<(Seq<char>, SVal)>, k: Seq<char>, j: nat)
    ensures
        key_index(d, k, j) is None ==> forall|i: int| j <= i < d.len() ==> #[trigger] d[i].0 != k,
    decreases d.len() - j,
{
    if j < d.len() {
        lemma_key_index_absent(d, k, j + 1);
    }
}

/// Binding a key in a dictionary whose keys are distinct keeps them distinct:
/// the dictionaries `dict` builds never hold a key twice.
pub proof fn law_dict_insert_keeps_keys_distinct(d: Seq<(Seq<char>, SVal)>, k: Seq<char>, v: SVal)
    requires
        keys_distinct(d),
    ensures
        keys_distinct(dict_insert(d, k, v)),
{
    lemma_key_index_found(d, k, 0);
    lemma_key_index_absent(d, k, 0);
    let d2 = dict_insert(d, k, v);
    match key_index(d, k, 0) {
        Some(j) => {
            assert forall|a: int, b: int| 0 <= a < d2.len() && 0 <= b < d2.len() && a != b implies d2[a].0 != d2[b].0 by {
                assert(d2[a].0 == d[a].0 && d2[b].0 == d[b].0);
            }
        },
        None => {
            assert forall|a: int, b: int| 0 <= a < d2.len() && 0 <= b < d2.len() && a != b implies d2[a].0 != d2[b].0 by {
                if a < d.len() && b < d.len() {
                    assert(d2[a] == d[a] && d2[b] == d[b]);
                } else if a < d.len() {
                    assert(d2[a] == d[a]);
                } else if b < d.len() {
                    assert(d2[b] == d[b]);
                }
            }
        },
    }
}

/// After `k` is bound to `v` in a dictionary, looking `k` up gives `v`.
pub proof fn law_dict_get_after_insert(d: Seq<(Seq<char>, SVal)>, k: Seq<char>, v: SVal)
    ensures
        dict_get(dict_insert(d, k, v), k) == Some(v),
{
    lemma_key_index_found(d, k, 0);
    match key_index(d, k, 0) {
        Some(j) => {
            let d2 = d.update(j as int, (k, v));
            lemma_key_index_same_keys(d, d2, k, 0);
        },
        None => {
            lemma_key_index_push(d, (k, v), k, 0);
        },
    }
}

/// Binding `k` in a dictionary leaves the entry of every other key as it was.
pub proof fn law_dict_insert_keeps_others(d: Seq<(Seq<char>, SVal)>, k: Seq<char>, v: SVal, k2: Seq<char>)
    requires
        k2 != k,
    ensures
        dict_get(dict_insert(d, k, v), k2) == dict_get(d, k2),
{
    lemma_key_index_found(d, k, 0);
    lemma_key_index_found(d, k2, 0);
    match key_index(d, k, 0) {
        Some(j) => {
            let d2 = d.update(j as int, (k, v));
            lemma_key_index_same_keys(d, d2, k2, 0);
        },
        None => {
            lemma_key_index_push(d, (k, v), k2, 0);
        },
    }
}

//////////////////////////////////////////////////////////////////////////////
// Scopes
//////////////////////////////////////////////////////////////////////////////

/// After binding `k` to `v` in the innermost scope, `k` is bound to `v`.
pub proof fn law_lookup_after_set(env: Env, k: Seq<char>, v: SVal)
    requires
        env.len() >= 1,
    ensures
        env_lookup(env_set(env, k, v), k) == Some(v),
{
}

/// Binding `k` leaves the binding of every other name as it was.
pub proof fn law_set_keeps_other_names(env: Env, k: Seq<char>, v: SVal, k2: Seq<char>)
    requires
        env.len() >= 1,
        k2 != k,
    ensures
        env_lookup(env_set(env, k, v), k2) == env_lookup(env, k2),
{
    let e2 = env_set(env, k, v);
    assert(e2.drop_last() =~= env.drop_last());
}

/// A name bound by `setq` evaluates, right after, to the value it was bound to.
pub proof fn law_setq_then_lookup(
    fuel: nat,
    fuel2: nat,
    name: Seq<char>,
    expr: SVal,
    env: Env,
    rt: SRuntime,
    rs: Seq<Reply>,
    pos: nat,
)
    requires
        env.len() >= 1,
        pos <= rs.len(),
        fuel2 > 0,
    ensures
        ({
            let s = setq_spec(fuel, seq![SVal::Atom(name), expr], env, rt, rs, pos);
            s.res matches Res::Done(v) ==> eval_spec(fuel2, SVal::Atom(name), s.env, rt, rs, s.pos) == done(v, s.env, s.pos)
        }),
{
    law_eval_replies_and_scopes(fuel, expr, env, rt, rs, rs, pos);
    let s = eval_spec(fuel, expr, env, rt, rs, pos);
    if s.res is Done {
        law_lookup_after_set(s.env, name, s.res->Done_0);
    }
}

/// A new, empty innermost scope hides nothing.
pub proof fn law_lookup_through_empty_scope(env: Env, k: Seq<char>)
    ensures
        env_lookup(env.push(Map::empty()), k) == env_lookup(env, k),
{
    assert(env.push(Map::empty()).drop_last() =~= env);
}

/// Closing a scope just opened gives back the scopes as they were.
pub proof fn law_pop_after_push(env: Env, m: Map<Seq<char>, SVal>)
    ensures
        env_pop(env.push(m)) == (if env.len() > 0 { env } else { env.push(m) }),
{
    assert(env.push(m).drop_last() =~= env);
}

} // verus!
