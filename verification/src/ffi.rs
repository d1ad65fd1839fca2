//! C types for foreign calls, and the checks that turn interpreter values into
//! the arguments of a foreign call.
use vstd::prelude::*;
use crate::text::same_text;

verus! {

/// The C types a foreign function may take or return.
#[derive(Debug, Clone, Copy, PartialEq, Eq, Structural)]
pub enum CType {
    Char,
    Double,
    Float,
    Int,
    Str,
}

/// The C type named by `s`, if `s` names one.
pub open spec fn ctype_named(s: Seq<char>) -> Option<CType> {
    if s == "Char"@ {
        Some(CType::Char)
    } else if s == "Double"@ {
        Some(CType::Double)
    } else if s == "Float"@ {
        Some(CType::Float)
    } else if s == "Int"@ {
        Some(CType::Int)
    } else if s == "Str"@ {
        Some(CType::Str)
    } else {
        None
    }
}

/// The C type named by `s`, or `None` when `s` names none of them.
pub fn ctype_from_name(s: &str) -> (r: Option<CType>)
    ensures
        r == ctype_named(s@),
{
    if same_text(s, "Char") {
        Some(CType::Char)
    } else if same_text(s, "Double") {
        Some(CType::Double)
    } else if same_text(s, "Float") {
        Some(CType::Float)
    } else if same_text(s, "Int") {
        Some(CType::Int)
    } else if same_text(s, "Str") {
        Some(CType::Str)
    } else {
        None
    }
}

/// The C type named by `s`; `s` must name one of `Char`, `Double`, `Float`,
/// `Int`, `Str`.
pub fn string_to_ctype(s: &str) -> (r: CType)
    requires
        ctype_named(s@) is Some,
    ensures
        Some(r) == ctype_named(s@),
{
    match ctype_from_name(s) {
        Some(t) => t,
        None => CType::Char,
    }
}

} // verus!
