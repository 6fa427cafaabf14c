//! The chunk splitter: divides a raw byte stream, read piece by piece, into
//! segments that always end on a UTF-8 character boundary, carrying a
//! dangling character prefix over to the next read.
use crate::utf8x::{can_extend, lemma_split_point_of_valid, lemma_split_point_some, split_point,
    utf8_split_point};
use vstd::prelude::*;
use vstd::utf8::valid_utf8;

verus! {

/// The stream is not valid UTF-8, however it would continue.
#[derive(Clone, Copy, Debug, PartialEq, Eq)]
pub struct SplitError;

/// Carries the dangling bytes of a character cut by a read boundary.
pub struct ChunkSplitter {
    carry: Vec<u8>,
}

impl ChunkSplitter {
    /// The bytes carried over from the last read: at most three bytes that
    /// open a character whose remainder has not arrived yet.
    pub closed spec fn carry_bytes(self) -> Seq<u8> {
        self.carry@
    }

    /// The carried bytes always form a dangling character prefix.
    pub closed spec fn wf(self) -> bool {
        can_extend(self.carry@)
    }

    /// A fresh splitter carries nothing.
    pub fn new() -> (r: ChunkSplitter)
        ensures
            r.carry_bytes() == Seq::<u8>::empty(),
            r.wf(),
    {
        let carry: Vec<u8> = Vec::new();
        proof {
            assert(can_extend(carry@));
        }
        ChunkSplitter { carry }
    }

    /// Consumes one read: emits the longest valid UTF-8 chunk of the carried
    /// bytes followed by the read, and carries the dangling remainder. The
    /// chunk never ends inside a character, and chunk plus carry are exactly
    /// the bytes fed. Fails, leaving the carry unchanged, exactly when the
    /// bytes are invalid beyond repair.
    pub fn push(&mut self, data: &[u8]) -> (r: Result<Vec<u8>, SplitError>)
        requires
            old(self).wf(),
        ensures
            final (self).wf(),
            r is Ok <==> split_point(old(self).carry_bytes() + data@) is Some,
            r matches Ok(chunk) ==> chunk@ + final (self).carry_bytes() == old(
                self,
            ).carry_bytes() + data@,
            r matches Ok(chunk) ==> valid_utf8(chunk@),
            r matches Ok(chunk) ==> split_point(old(self).carry_bytes() + data@) == Some(
                chunk@.len() as int,
            ),
            r is Err ==> final (self).carry_bytes() == old(self).carry_bytes(),
    {
        let mut total = vstd::slice::slice_to_vec(self.carry.as_slice());
        total.extend_from_slice(data);
        proof {
            assert(total@ =~= old(self).carry_bytes() + data@);
        }
        let (p, ok) = utf8_split_point(total.as_slice());
        if !ok {
            return Err(SplitError);
        }
        proof {
            lemma_split_point_some(total@, p as int);
        }
        let chunk = vstd::slice::slice_to_vec(
            vstd::slice::slice_subrange(total.as_slice(), 0, p),
        );
        let rest = vstd::slice::slice_to_vec(
            vstd::slice::slice_subrange(total.as_slice(), p, total.len()),
        );
        self.carry = rest;
        proof {
            assert(chunk@ + self.carry@ =~= total@);
        }
        Ok(chunk)
    }

    /// Ends the stream: succeeds exactly when no dangling character prefix
    /// remains, which on a valid stream is always the case.
    pub fn finish(&self) -> (r: Result<(), SplitError>)
        ensures
            r is Ok <==> self.carry_bytes().len() == 0,
    {
        if self.carry.len() == 0 {
            Ok(())
        } else {
            Err(SplitError)
        }
    }
}

/// A valid read is consumed whole: nothing is carried.
pub proof fn lemma_push_of_valid(carry: Seq<u8>, data: Seq<u8>)
    requires
        valid_utf8(carry + data),
    ensures
        split_point(carry + data) == Some((carry + data).len() as int),
{
    lemma_split_point_of_valid(carry + data);
}

/// Reassembly across reads: the chunks of consecutive pushes, followed by
/// the final carry, concatenate to exactly the bytes fed in, in order.
pub proof fn lemma_split_reassemble(
    c0: Seq<u8>,
    d1: Seq<u8>,
    chunk1: Seq<u8>,
    c1: Seq<u8>,
    d2: Seq<u8>,
    chunk2: Seq<u8>,
    c2: Seq<u8>,
)
    requires
        chunk1 + c1 == c0 + d1,
        chunk2 + c2 == c1 + d2,
    ensures
        chunk1 + chunk2 + c2 == c0 + d1 + d2,
{
    assert(chunk1 + chunk2 + c2 =~= chunk1 + (chunk2 + c2));
    assert(chunk1 + (c1 + d2) =~= (chunk1 + c1) + d2);
    assert((c0 + d1) + d2 =~= c0 + d1 + d2);
}

} // verus!
