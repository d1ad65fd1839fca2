//! Interpreter values and their mathematical model.
use vstd::prelude::*;
use crate::ffi::CType;

verus! {

/// The functions that the interpreter provides itself.
#[derive(Debug, Clone, Copy, PartialEq, Eq, Structural)]
pub enum Builtin {
    Add,
    Sub,
    Mul,
    Div,
    Peek,
    Eq,
    Gt,
    And,
    Or,
    Not,
    Len,
    Dict,
    Fmt,
    Print,
    Println,
    Setq,
    Ret,
    Ifel,
    Inc,
    Ffi,
    RuntimeCtx,
}

/// A value of the language. Floating-point numbers are held as the bits of
/// an IEEE-754 binary64 number; a dictionary is a list of entries with
/// distinct keys, in insertion order.
#[derive(Debug, PartialEq)]
pub enum Value {
    Int(i64),
    Float(u64),
    Str(String),
    Atom(String),
    UnresolvedAtom(String),
    Bool(bool),
    List(Vec<Value>),
    Eval(Vec<Value>),
    FFI(String, String, Vec<CType>, CType),
    Lambda(Vec<Value>),
    Dict(Vec<(String, Value)>),
    Builtin(Builtin),
    Ret(Box<Value>),
}

/// The mathematical model of a [`Value`].
#[verifier::ext_equal]
pub enum SVal {
    Int(i64),
    Float(u64),
    Str(Seq<char>),
    Atom(Seq<char>),
    UnresolvedAtom(Seq<char>),
    Bool(bool),
    List(Seq<SVal>),
    Eval(Seq<SVal>),
    FFI(Seq<char>, Seq<char>, Seq<CType>, CType),
    Lambda(Seq<SVal>),
    Dict(Seq<(Seq<char>, SVal)>),
    Builtin(Builtin),
    Ret(Box<SVal>),
}

impl Value {
    /// The model of this value.
    pub open spec fn model(&self) -> SVal
        decreases self,
    {
        match self {
            Value::Int(i) => SVal::Int(*i),
            Value::Float(b) => SVal::Float(*b),
            Value::Str(s) => SVal::Str(s@),
            Value::Atom(s) => SVal::Atom(s@),
            Value::UnresolvedAtom(s) => SVal::UnresolvedAtom(s@),
            Value::Bool(b) => SVal::Bool(*b),
            Value::List(l) => SVal::List(
                Seq::new(l@.len(), |i: int| if 0 <= i < l@.len() { l@[i].model() } else { SVal::Bool(false) }),
            ),
            Value::Eval(l) => SVal::Eval(
                Seq::new(l@.len(), |i: int| if 0 <= i < l@.len() { l@[i].model() } else { SVal::Bool(false) }),
            ),
            Value::FFI(f, n, ts, r) => SVal::FFI(f@, n@, ts@, *r),
            Value::Lambda(l) => SVal::Lambda(
                Seq::new(l@.len(), |i: int| if 0 <= i < l@.len() { l@[i].model() } else { SVal::Bool(false) }),
            ),
            Value::Dict(d) => SVal::Dict(
                Seq::new(
                    d@.len(),
                    |i: int|
                        if 0 <= i < d@.len() {
                            (d@[i].0@, d@[i].1.model())
                        } else {
                            (Seq::empty(), SVal::Bool(false))
                        },
                ),
            ),
            Value::Builtin(b) => SVal::Builtin(*b),
            Value::Ret(v) => SVal::Ret(Box::new((**v).model())),
        }
    }
}

impl View for Value {
    type V = SVal;

    open spec fn view(&self) -> SVal {
        self.model()
    }
}

/// The models of a sequence of values.
pub open spec fn views(s: Seq<Value>) -> Seq<SVal> {
    Seq::new(s.len(), |i: int| s[i]@)
}

/// The models of the entries of a dictionary.
pub open spec fn entry_views(s: Seq<(String, Value)>) -> Seq<(Seq<char>, SVal)> {
    Seq::new(s.len(), |i: int| (s[i].0@, s[i].1@))
}

pub proof fn lemma_list_views(l: Vec<Value>)
    ensures
        Value::List(l)@ == SVal::List(views(l@)),
        Value::Eval(l)@ == SVal::Eval(views(l@)),
        Value::Lambda(l)@ == SVal::Lambda(views(l@)),
{
    let s = Value::List(l)@->List_0;
    assert(s.len() == l@.len());
    assert forall|i: int| 0 <= i < l@.len() implies s[i] == views(l@)[i] by {
        assert(s[i] == l@[i].model());
    }
    assert(Value::List(l)@->List_0 =~= views(l@));
    assert(Value::Eval(l)@->Eval_0 =~= views(l@));
    assert(Value::Lambda(l)@->Lambda_0 =~= views(l@));
}

pub proof fn lemma_dict_views(d: Vec<(String, Value)>)
    ensures
        Value::Dict(d)@ == SVal::Dict(entry_views(d@)),
{
    assert(Value::Dict(d)@->Dict_0 =~= entry_views(d@));
}

/// Whether a value counts as true in `and`, `or` and `not`.
pub open spec fn truthy(v: SVal) -> bool {
    match v {
        SVal::Int(i) => i != 0,
        SVal::List(l) => l.len() != 0,
        SVal::Bool(b) => b,
        _ => false,
    }
}

impl Value {
    /// Whether this value counts as true: a non-zero integer, a non-empty
    /// list or `true`.
    pub fn to_bool(&self) -> (r: bool)
        ensures
            r == truthy(self@),
    {
        match self {
            Value::Int(i) => *i != 0,
            Value::List(l) => {
                proof {
                    lemma_list_views(*l);
                }
                l.len() != 0
            },
            Value::Bool(b) => *b,
            _ => false,
        }
    }

    /// The name held by an atom.
    pub fn unpack_atom(&self) -> (r: String)
        requires
            self is Atom,
        ensures
            r@ == self->Atom_0@,
    {
        match self {
            Value::Atom(a) => a.clone(),
            _ => String::new(),
        }
    }

    /// A copy of this value, equal to it in every part.
    pub fn copy(&self) -> (r: Value)
        ensures
            r@ == self@,
        decreases self, 0nat,
    {
        match self {
            Value::Int(i) => Value::Int(*i),
            Value::Float(b) => Value::Float(*b),
            Value::Str(s) => Value::Str(s.clone()),
            Value::Atom(s) => Value::Atom(s.clone()),
            Value::UnresolvedAtom(s) => Value::UnresolvedAtom(s.clone()),
            Value::Bool(b) => Value::Bool(*b),
            Value::List(l) => {
                let c = copy_values(l);
                proof {
                    lemma_list_views(*l);
                    lemma_list_views(c);
                }
                Value::List(c)
            },
            Value::Eval(l) => {
                let c = copy_values(l);
                proof {
                    lemma_list_views(*l);
                    lemma_list_views(c);
                }
                Value::Eval(c)
            },
            Value::Lambda(l) => {
                let c = copy_values(l);
                proof {
                    lemma_list_views(*l);
                    lemma_list_views(c);
                }
                Value::Lambda(c)
            },
            Value::FFI(f, n, ts, r) => {
                let ts2 = copy_ctypes(ts);
                Value::FFI(f.clone(), n.clone(), ts2, *r)
            },
            Value::Dict(d) => {
                let c = copy_entries(d);
                proof {
                    lemma_dict_views(*d);
                    lemma_dict_views(c);
                }
                Value::Dict(c)
            },
            Value::Builtin(b) => Value::Builtin(*b),
            Value::Ret(v) => Value::Ret(Box::new((**v).copy())),
        }
    }
}

impl Clone for Value {
    fn clone(&self) -> (r: Value)
        ensures
            r@ == self@,
    {
        self.copy()
    }
}

fn copy_ctypes(ts: &Vec<CType>) -> (r: Vec<CType>)
    ensures
        r@ == ts@,
{
    let mut out: Vec<CType> = Vec::new();
    let mut i: usize = 0;
    while i < ts.len()
        invariant
            i <= ts.len(),
            out@ =~= ts@.take(i as int),
        decreases ts.len() - i,
    {
        out.push(ts[i]);
        i += 1;
    }
    proof {
        assert(ts@.take(ts.len() as int) =~= ts@);
    }
    out
}

/// Copies of a sequence of values.
pub fn copy_values(l: &Vec<Value>) -> (r: Vec<Value>)
    ensures
        views(r@) == views(l@),
    decreases l, 0nat,
{
    let mut out: Vec<Value> = Vec::new();
    let mut i: usize = 0;
    while i < l.len()
        invariant
            i <= l.len(),
            out@.len() == i,
            forall|j: int| 0 <= j < i ==> #[trigger] out@[j]@ == l@[j]@,
        decreases l.len() - i,
    {
        proof {
            assert(decreases_to!(l => l@));
            assert(decreases_to!(l@ => l@[i as int]));
        }
        out.push(l[i].copy());
        i += 1;
    }
    proof {
        assert(views(out@) =~= views(l@));
    }
    out
}

fn copy_entries(d: &Vec<(String, Value)>) -> (r: Vec<(String, Value)>)
    ensures
        entry_views(r@) == entry_views(d@),
    decreases d, 0nat,
{
    let mut out: Vec<(String, Value)> = Vec::new();
    let mut i: usize = 0;
    while i < d.len()
        invariant
            i <= d.len(),
            out@.len() == i,
            forall|j: int| 0 <= j < i ==> #[trigger] out@[j].0@ == d@[j].0@ && out@[j].1@ == d@[j].1@,
        decreases d.len() - i,
    {
        proof {
            assert(decreases_to!(d => d@));
            assert(decreases_to!(d@ => d@[i as int]));
            assert(decreases_to!(d@[i as int] => d@[i as int].1));
        }
        let k = d[i].0.clone();
        let v = d[i].1.copy();
        out.push((k, v));
        i += 1;
    }
    proof {
        assert(entry_views(out@) =~= entry_views(d@));
    }
    out
}

} // verus!
