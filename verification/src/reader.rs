//! Reading one response off the connection, chunk by chunk. The end of a
//! response is taken from the first chunk that comes short of the chunk
//! size: no length header is read. A response whose length is a multiple of
//! the chunk size therefore never looks complete, and whoever drives the
//! reader will wait for a further chunk.

use vstd::prelude::*;
use vstd::utf8::{decode_utf8, valid_utf8};
use crate::extract::ParseError;

verus! {

/// How many bytes are asked of the connection at a time.
pub const CHUNK_SIZE: usize = 1024;

/// `String::from_utf8`: the bytes are turned into a string exactly where
/// they are well-formed UTF-8, and the string then holds the characters that
/// they encode.
#[verifier::external_body]
fn text_from_utf8(bytes: Vec<u8>) -> (r: Option<String>)
    ensures
        match r {
            Some(text) => valid_utf8(bytes@) && text@ == decode_utf8(bytes@),
            None => !valid_utf8(bytes@),
        },
{
    match String::from_utf8(bytes) {
        Ok(text) => Some(text),
        Err(_) => None,
    }
}

/// The bytes of one response as far as they have come in.
pub struct ResponseReader {
    received: Vec<u8>,
    complete: bool,
}

impl View for ResponseReader {
    type V = Seq<u8>;

    closed spec fn view(&self) -> Seq<u8> {
        self.received@
    }
}

impl ResponseReader {
    /// Whether a short chunk has ended the response.
    pub closed spec fn complete(&self) -> bool {
        self.complete
    }

    /// A reader that has received nothing yet.
    pub fn new() -> (reader: Self)
        ensures
            reader@ == Seq::<u8>::empty(),
            !reader.complete(),
    {
        ResponseReader { received: Vec::new(), complete: false }
    }

    /// Takes in the bytes of one read and tells whether another read is to
    /// follow: it is, unless the chunk came short of `CHUNK_SIZE`.
    pub fn accept(&mut self, chunk: &[u8]) -> (more: bool)
        ensures
            final(self)@ == old(self)@ + chunk@,
            more == (chunk@.len() >= CHUNK_SIZE),
            final(self).complete() == !more,
    {
        let ghost before = self.received@;
        let mut i: usize = 0;
        while i < chunk.len()
            invariant
                i <= chunk.len(),
                self.received@ == before + chunk@.take(i as int),
            decreases chunk.len() - i,
        {
            self.received.push(chunk[i]);
            i += 1;
            assert(chunk@.take(i as int) =~= chunk@.take(i - 1).push(chunk@[i - 1]));
            assert(self.received@ =~= before + chunk@.take(i as int));
        }
        assert(chunk@.take(i as int) =~= chunk@);
        self.complete = chunk.len() < CHUNK_SIZE;
        !self.complete
    }

    /// Tells whether a short chunk has ended the response.
    pub fn is_complete(&self) -> (r: bool)
        ensures
            r == self.complete(),
    {
        self.complete
    }

    /// How many bytes have come in.
    pub fn len(&self) -> (n: usize)
        ensures
            n == self@.len(),
    {
        self.received.len()
    }

    /// The response as text. Bytes that are no UTF-8 are refused.
    pub fn into_text(self) -> (r: Result<String, ParseError>)
        ensures
            match r {
                Ok(text) => valid_utf8(self@) && text@ == decode_utf8(self@),
                Err(e) => !valid_utf8(self@) && e == ParseError::InvalidText,
            },
    {
        match text_from_utf8(self.received) {
            Some(text) => Ok(text),
            None => Err(ParseError::InvalidText),
        }
    }
}

} // verus!
