use vstd::prelude::*;

verus! {

/// A generic structured-data node: a discriminated union over the shapes a
/// parsed document can take.  A tree of these is the input to canonicalization.
pub enum Value {
    Null,
    Bool(bool),
    /// A number with a signed 64-bit integer representation; only these are
    /// accepted in canonical positions.
    Int(i64),
    /// A number with no signed 64-bit integer representation (a fractional or
    /// exponent part, or a magnitude out of range).  Kept so that parsed input
    /// can be represented faithfully; canonicalization rejects it.
    NonIntNumber,
    /// A sequence of Unicode scalar values.
    Text(String),
    /// An ordered sequence of values; order is significant and preserved.
    Array(Vec<Value>),
    /// A mapping from string keys to values.  Insertion order is not
    /// semantically significant: canonicalization imposes its own order.
    Object(Vec<(String, Value)>),
}

/// Why an operation on a value failed.
#[derive(Clone, Copy, Debug, PartialEq, Eq, Structural)]
pub enum CanonError {
    /// A number without a signed 64-bit integer representation appeared in a
    /// canonical position.
    NonCanonicalNumber,
    /// The top-level value handed to the preimage builder was not an object.
    InvalidEntryShape,
}

/// Size of a value tree: a measure that sorting an object's members preserves,
/// used to show that canonicalization terminates.
pub open spec fn csize(v: Value) -> nat
    decreases v,
{
    match v {
        Value::Array(a) => 1 + csize_list(a@),
        Value::Object(m) => 1 + csize_members(m@),
        _ => 1,
    }
}

/// Combined size of a sequence of values.
pub open spec fn csize_list(s: Seq<Value>) -> nat
    decreases s,
{
    if s.len() == 0 {
        0
    } else {
        csize_list(s.drop_last()) + 1 + csize(s[s.len() - 1])
    }
}

/// Combined size of a sequence of object members.
pub open spec fn csize_members(s: Seq<(String, Value)>) -> nat
    decreases s,
{
    if s.len() == 0 {
        0
    } else {
        csize_members(s.drop_last()) + 1 + csize(s[s.len() - 1].1)
    }
}

/// Whether a value can be canonicalized: it holds no number that lacks a
/// signed 64-bit integer representation.
pub open spec fn canon_ok(v: Value) -> bool
    decreases v,
{
    match v {
        Value::NonIntNumber => false,
        Value::Array(a) => forall|i: int| 0 <= i < a@.len() ==> canon_ok(#[trigger] a@[i]),
        Value::Object(m) => forall|i: int| 0 <= i < m@.len() ==> canon_ok(#[trigger] m@[i].1),
        _ => true,
    }
}

/// The members of an object value; the empty sequence for any other value.
pub open spec fn entries_of(v: Value) -> Seq<(String, Value)> {
    match v {
        Value::Object(m) => m@,
        _ => Seq::empty(),
    }
}

/// Whether every member of a member sequence has a canonicalizable value.
pub open spec fn members_ok(s: Seq<(String, Value)>) -> bool {
    forall|i: int| 0 <= i < s.len() ==> canon_ok(#[trigger] s[i].1)
}

} // verus!
