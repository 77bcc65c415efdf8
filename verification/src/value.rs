//! The decoded value tree and the decoder's error taxonomy.

use vstd::prelude::*;

verus! {

broadcast use vstd::std_specs::vec::group_vec_axioms;

/// A decoded bencode value.
///
/// A dictionary is kept as an association vector in insertion order of the
/// first occurrence of each key; a duplicate key overwrites the value in
/// place, so the keys of a decoded dictionary are unique.
#[derive(Debug, PartialEq, Eq)]
pub enum Value {
    /// A signed whole number.  The encoding itself has no bound, so any
    /// literal whose magnitude does not fit is rejected rather than wrapped.
    Integer(i64),
    /// A length-prefixed run of characters, carried verbatim: no text
    /// encoding is assumed of it.
    ByteString(Vec<char>),
    /// An ordered sequence of values; order is significant and preserved.
    List(Vec<Value>),
    /// A mapping from byte-string keys to values.
    Dictionary(Vec<(Vec<char>, Value)>),
}

/// The mathematical shape of a [`Value`]: the same tree over `int`, `Seq`
/// and pairs.  Contracts speak of this type, never of `Vec` internals.
pub enum ValueSpec {
    Integer(int),
    ByteString(Seq<char>),
    List(Seq<ValueSpec>),
    Dictionary(Seq<(Seq<char>, ValueSpec)>),
}

/// The views of the elements of a value sequence, in order.
///
/// The index is guarded because a `Seq::new` closure is total over `int`,
/// while only in-range elements are smaller than the sequence for the
/// termination measure; out-of-range positions never reach a real element.
pub open spec fn values_view(vs: Seq<Value>) -> Seq<ValueSpec>
    decreases vs,
{
    Seq::new(
        vs.len(),
        |k: int|
            if 0 <= k < vs.len() {
                vs[k]@
            } else {
                ValueSpec::Integer(0)
            },
    )
}

/// The views of the entries of an association sequence, in order.  The
/// index guard is as in [`values_view`].
pub open spec fn entries_view(es: Seq<(Vec<char>, Value)>) -> Seq<(Seq<char>, ValueSpec)>
    decreases es,
{
    Seq::new(
        es.len(),
        |k: int|
            if 0 <= k < es.len() {
                (es[k].0@, es[k].1@)
            } else {
                (Seq::empty(), ValueSpec::Integer(0))
            },
    )
}

impl View for Value {
    type V = ValueSpec;

    open spec fn view(&self) -> ValueSpec
        decreases self,
    {
        match self {
            Value::Integer(n) => ValueSpec::Integer(*n as int),
            Value::ByteString(cs) => ValueSpec::ByteString(cs@),
            Value::List(items) => ValueSpec::List(values_view(items@)),
            Value::Dictionary(entries) => ValueSpec::Dictionary(entries_view(entries@)),
        }
    }
}

/// Why a decode failed.  Every error is terminal: the first malformed
/// construct aborts the whole decode and no partial tree is returned.
#[derive(Clone, Copy, Debug, PartialEq, Eq, Structural)]
pub enum DecodeError {
    /// The lookahead character starts no value form.
    UnexpectedToken,
    /// A dictionary-key position holds a non-digit lookahead.
    ExpectedStringKey,
    /// An integer literal has no digits, is not closed by `'e'`, or does
    /// not fit in an `i64`.
    MalformedInteger,
    /// A string literal has no length digits, is missing its `':'`, or
    /// declares more payload than the input still holds.
    MalformedString,
    /// The input ended inside a list or dictionary before its closing
    /// `'e'` was found.
    UnterminatedAggregate,
    /// A value was demanded at or past the end of the input.
    OutOfBounds,
}

} // verus!
