//! Parse failures.

use vstd::prelude::*;

verus! {

/// How a recognizer failed.
#[derive(Debug, Clone, Copy, PartialEq, Eq, Structural)]
pub enum ErrorKind {
    /// The recognizer does not match here; an alternative may be tried.
    Mismatch,
    /// The input cannot be valid here; parsing stops.
    Fatal,
}

/// A failure and the character position it refers to.
#[derive(Debug, Clone, Copy, PartialEq, Eq, Structural)]
pub struct ParseError {
    pub kind: ErrorKind,
    pub pos: usize,
}

/// The answer of a recognizer in the model: the end position and the value,
/// or the failure.
pub type Outcome<V> = Result<(int, V), ParseError>;

pub open spec fn mismatch_at(p: int) -> ParseError {
    ParseError { kind: ErrorKind::Mismatch, pos: p as usize }
}

pub open spec fn fatal_at(p: int) -> ParseError {
    ParseError { kind: ErrorKind::Fatal, pos: p as usize }
}

pub fn mismatch(p: usize) -> (e: ParseError)
    ensures
        e == mismatch_at(p as int),
{
    ParseError { kind: ErrorKind::Mismatch, pos: p }
}

pub fn fatal(p: usize) -> (e: ParseError)
    ensures
        e == fatal_at(p as int),
{
    ParseError { kind: ErrorKind::Fatal, pos: p }
}

} // verus!

verus! {

/// The exec answer `Ok((q, _))` seen in the model.
pub open spec fn ok_at<V>(o: Outcome<V>, q: usize, v: V) -> bool {
    o == Ok::<(int, V), ParseError>((q as int, v))
}

/// The exec answer `Err(e)` seen in the model.
pub open spec fn err_is<V>(o: Outcome<V>, e: ParseError) -> bool {
    o == Err::<(int, V), ParseError>(e)
}

/// `acc` put before the items of a successful list answer.
pub open spec fn prefixed<V>(acc: Seq<V>, o: Outcome<Seq<V>>) -> Outcome<Seq<V>> {
    match o {
        Ok((q, vs)) => Ok((q, acc + vs)),
        Err(e) => Err(e),
    }
}

pub proof fn lemma_prefixed<V>(acc: Seq<V>, v: V, o: Outcome<Seq<V>>)
    ensures
        prefixed(acc, prefixed(seq![v], o)) == prefixed(acc.push(v), o),
{
    if let Ok((q, vs)) = o {
        assert(acc + (seq![v] + vs) =~= acc.push(v) + vs);
    }
}

pub proof fn lemma_prefixed_empty<V>(acc: Seq<V>, q: int)
    ensures
        prefixed(acc, Ok::<(int, Seq<V>), ParseError>((q, Seq::empty()))) == Ok::<(int, Seq<V>), ParseError>((q, acc)),
{
    assert(acc + Seq::<V>::empty() =~= acc);
}

} // verus!
