use vstd::prelude::*;

use std::sync::Arc;

use crate::buffer::{
    advance_inner, after_advance, after_receive, after_take, find_separator, first_zero,
    is_first_zero, lemma_first_zero_at, no_zero, received_inner, trimmed,
};
use crate::codec::{decoded, rzcobs_decode};
use crate::error::DecodeError;

verus! {

/// The schema that turns a decoded payload into a structured record.
/// Implemented by the users of the stream decoders; its answer depends on
/// the table and the payload alone.
pub trait Table {
    /// The record that a payload decodes to.
    type Frame;

    /// What the table answers for `payload`. A verified table states it;
    /// one written outside Verus keeps this unknown default, and its
    /// `decode` goes unchecked against it.
    open spec fn answer(&self, payload: Seq<u8>) -> Result<(Self::Frame, usize), DecodeError> {
        arbitrary()
    }

    /// Decodes `payload` into a record, with the number of payload bytes
    /// it took.
    fn decode(&self, payload: &[u8]) -> (r: Result<(Self::Frame, usize), DecodeError>)
        ensures
            r == self.answer(payload@),
    ;
}

/// What a stream decoder returns for a payload, given the table's answer.
pub open spec fn outcome<F>(answer: Result<(F, usize), DecodeError>) -> Result<F, DecodeError> {
    match answer {
        Ok((frame, _)) => Ok(frame),
        Err(_) => Err(DecodeError::Malformed),
    }
}

/// The record reported for a payload, given the table's answer.
pub open spec fn reported<F>(answer: Result<(F, usize), DecodeError>) -> Option<F> {
    match answer {
        Ok((frame, _)) => Some(frame),
        Err(_) => None,
    }
}

/// The length that a frame is reported with: the decoded length, or zero
/// where the codec failed.
pub open spec fn reported_length(codec: Option<Seq<u8>>) -> nat {
    match codec {
        Some(p) => p.len(),
        None => 0,
    }
}

/// What one decode of the buffer `buf` returns, where `answers` gives the
/// table's answer for each payload: `UnexpectedEof` without a separator,
/// `Malformed` where the first frame breaks the encoding, else what the
/// table's answer for its payload comes to.
pub open spec fn decode_result<F>(
    buf: Seq<u8>,
    answers: spec_fn(Seq<u8>) -> Result<(F, usize), DecodeError>,
) -> Result<F, DecodeError> {
    if no_zero(buf) {
        Err(DecodeError::UnexpectedEof)
    } else {
        match decoded(buf.subrange(0, first_zero(buf))) {
            None => Err(DecodeError::Malformed),
            Some(p) => outcome(answers(p)),
        }
    }
}

/// What a stream decoder returns for a payload, given the table's answer:
/// the record, or `Malformed` for any refusal. The payload was already
/// delimited by its separator, so "more data needed" cannot apply to it.
pub fn table_outcome<F>(answer: Result<(F, usize), DecodeError>) -> (r: Result<F, DecodeError>)
    ensures
        r == outcome(answer),
{
    match answer {
        Ok((frame, _consumed)) => Ok(frame),
        Err(_) => Err(DecodeError::Malformed),
    }
}

/// Length of the intermediate payload that a frame is reported with: the
/// decoded length, or zero where the codec failed.
pub fn reported_len(codec: &Result<Vec<u8>, DecodeError>) -> (n: usize)
    ensures
        n == reported_length(
            match codec {
                Ok(v) => Some(v@),
                Err(_) => None,
            },
        ),
{
    match codec {
        Ok(v) => v.len(),
        Err(_) => 0,
    }
}

/// Takes the first complete frame out of `raw`: its encoded bytes and what
/// the codec made of them. `None`, with `raw` untouched, where no separator
/// has arrived yet.
fn take_frame(raw: &mut Vec<u8>) -> (r: Option<(Vec<u8>, Result<Vec<u8>, DecodeError>)>)
    ensures
        no_zero(old(raw)@) <==> r is None,
        r is None ==> final(raw)@ == old(raw)@,
        !no_zero(old(raw)@) ==> exists|z: int| is_first_zero(old(raw)@, z),
        forall|z: int|
            #[trigger] is_first_zero(old(raw)@, z) ==> {
                &&& final(raw)@ == after_advance(old(raw)@, z)
                &&& r matches Some((encoded, codec)) && encoded@ == old(raw)@.subrange(0, z)
                    && match codec {
                    Ok(v) => decoded(encoded@) == Some(v@),
                    Err(e) => decoded(encoded@) is None && e == DecodeError::Malformed,
                }
            },
        trimmed(old(raw)@) ==> trimmed(final(raw)@),
{
    match find_separator(raw) {
        None => None,
        Some(zero) => {
            let ghost buf = raw@;
            let mut encoded = raw.split_off(zero);
            core::mem::swap(raw, &mut encoded);
            proof {
                assert(raw@.subrange(0, raw@.len() as int) == raw@);
                assert(after_advance(raw@, 0) == after_advance(buf, zero as int));
            }
            let codec = rzcobs_decode(encoded.as_slice());
            advance_inner(raw, 0);
            proof {
                assert(is_first_zero(buf, zero as int));
                assert forall|z: int| #[trigger] is_first_zero(buf, z) implies z == zero by {
                    if z < zero {
                        assert(buf.subrange(0, zero as int)[z] == buf[z]);
                    } else if z > zero {
                        assert(buf.subrange(0, z)[zero as int] == buf[zero as int]);
                    }
                }
            }
            Some((encoded, codec))
        },
    }
}

/// A stream decoder that borrows its table.
pub struct Rzcobs<'a, T: Table> {
    table: &'a T,
    raw: Vec<u8>,
}

impl<'a, T: Table> View for Rzcobs<'a, T> {
    type V = Seq<u8>;

    /// The encoded bytes buffered and not yet taken as a frame.
    closed spec fn view(&self) -> Seq<u8> {
        self.raw@
    }
}

impl<'a, T: Table> Rzcobs<'a, T> {
    /// What the table of this decoder answers for `payload`.
    pub closed spec fn table_answer(&self, payload: Seq<u8>) -> Result<(T::Frame, usize), DecodeError> {
        self.table.answer(payload)
    }

    /// The table's answers, payload by payload.
    pub open spec fn answers(&self) -> spec_fn(Seq<u8>) -> Result<(T::Frame, usize), DecodeError> {
        |p: Seq<u8>| self.table_answer(p)
    }

    /// A decoder with an empty buffer.
    pub fn new(table: &'a T) -> (r: Self)
        ensures
            r@ == Seq::<u8>::empty(),
            forall|p: Seq<u8>| #[trigger] r.table_answer(p) == table.answer(p),
    {
        Rzcobs { table, raw: Vec::new() }
    }

    /// Buffers bytes as they arrive, in chunks of any size.
    pub fn received(&mut self, data: &[u8])
        ensures
            final(self)@ == after_receive(old(self)@, data@),
            trimmed(old(self)@) ==> trimmed(final(self)@),
            forall|p: Seq<u8>| #[trigger] final(self).table_answer(p) == old(self).table_answer(p),
    {
        received_inner(&mut self.raw, data);
    }

    /// Takes at most one frame from the buffer and decodes it into a record.
    /// Without a separator in the buffer this is `UnexpectedEof` and nothing
    /// changes. Otherwise the frame and its separators leave the buffer,
    /// whatever the outcome.
    pub fn decode(&mut self) -> (r: Result<T::Frame, DecodeError>)
        ensures
            r == decode_result(old(self)@, old(self).answers()),
            final(self)@ == after_take(old(self)@),
            forall|p: Seq<u8>| #[trigger] final(self).table_answer(p) == old(self).table_answer(p),
            trimmed(old(self)@) ==> trimmed(final(self)@),
    {
        let ghost buf = self.raw@;
        let taken = take_frame(&mut self.raw);
        proof {
            if !no_zero(buf) {
                let z = choose|z: int| is_first_zero(buf, z);
                lemma_first_zero_at(buf, z);
            }
        }
        match taken {
            None => Err(DecodeError::UnexpectedEof),
            Some((_encoded, Err(e))) => Err(e),
            Some((_encoded, Ok(payload))) => table_outcome(self.table.decode(payload.as_slice())),
        }
    }
}

/// A stream decoder that holds a shared handle to its table.
pub struct RzcobsOwned<T: Table> {
    table: Arc<T>,
    raw: Vec<u8>,
}

impl<T: Table> View for RzcobsOwned<T> {
    type V = Seq<u8>;

    /// The encoded bytes buffered and not yet taken as a frame.
    closed spec fn view(&self) -> Seq<u8> {
        self.raw@
    }
}

impl<T: Table> RzcobsOwned<T> {
    /// What the table of this decoder answers for `payload`.
    pub closed spec fn table_answer(&self, payload: Seq<u8>) -> Result<(T::Frame, usize), DecodeError> {
        self.table.answer(payload)
    }

    /// The handle to the table that this decoder holds.
    pub closed spec fn table_handle(&self) -> Arc<T> {
        self.table
    }

    /// A decoder with an empty buffer.
    pub fn new(table: Arc<T>) -> (r: Self)
        ensures
            r@ == Seq::<u8>::empty(),
            r.table_handle() == table,
            forall|p: Seq<u8>| #[trigger] r.table_answer(p) == table.answer(p),
    {
        RzcobsOwned { table, raw: Vec::new() }
    }

    /// Another handle to the table.
    pub fn table(&self) -> (r: Arc<T>)
        ensures
            r == self.table_handle(),
    {
        self.table.clone()
    }

    /// Buffers bytes as they arrive, in chunks of any size.
    pub fn received(&mut self, data: &[u8])
        ensures
            final(self)@ == after_receive(old(self)@, data@),
            trimmed(old(self)@) ==> trimmed(final(self)@),
            final(self).table_handle() == old(self).table_handle(),
            forall|p: Seq<u8>| #[trigger] final(self).table_answer(p) == old(self).table_answer(p),
    {
        received_inner(&mut self.raw, data);
    }

    /// Takes at most one frame from the buffer and reports it to `f`: its
    /// encoded bytes, the record where both codec and table accepted it, and
    /// the decoded length (zero where the codec failed). Returns whether a
    /// frame was taken; the buffer changes as with `Rzcobs::decode`.
    pub fn frame_and_decode<F: FnMut(&[u8], Option<T::Frame>, usize)>(&mut self, mut f: F) -> (r:
        bool)
        requires
            forall|encoded: &[u8], frame: Option<T::Frame>, len: usize|
                f.requires((encoded, frame, len)),
        ensures
            r <==> !no_zero(old(self)@),
            final(self)@ == after_take(old(self)@),
            r ==> exists|encoded: &[u8], frame: Option<T::Frame>, len: usize|
                {
                    &&& encoded@ == old(self)@.subrange(0, first_zero(old(self)@))
                    &&& len == reported_length(decoded(encoded@))
                    &&& frame == match decoded(encoded@) {
                        Some(p) => reported(old(self).table_answer(p)),
                        None => None,
                    }
                    &&& #[trigger] f.ensures((encoded, frame, len), ())
                },
            final(self).table_handle() == old(self).table_handle(),
            forall|p: Seq<u8>| #[trigger] final(self).table_answer(p) == old(self).table_answer(p),
            trimmed(old(self)@) ==> trimmed(final(self)@),
    {
        let ghost buf = self.raw@;
        let taken = take_frame(&mut self.raw);
        proof {
            if !no_zero(buf) {
                let z = choose|z: int| is_first_zero(buf, z);
                lemma_first_zero_at(buf, z);
            }
        }
        match taken {
            None => false,
            Some((encoded, codec)) => {
                let len = reported_len(&codec);
                let frame = match codec {
                    Ok(payload) => match table_outcome(self.table.decode(payload.as_slice())) {
                        Ok(frame) => Some(frame),
                        Err(_) => None,
                    },
                    Err(_) => None,
                };
                let bytes = encoded.as_slice();
                let ghost reported_frame = frame;
                f(bytes, frame, len);
                proof {
                    assert(f.ensures((bytes, reported_frame, len), ()));
                }
                true
            },
        }
    }
}

} // verus!
