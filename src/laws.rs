use vstd::prelude::*;

use crate::buffer::{
    after_advance, after_receive, after_take, is_first_zero, lemma_first_zero_at, no_zero,
    skip_zeros,
};
use crate::codec::decoded;
use crate::error::DecodeError;
use crate::stream::{decode_result, outcome};

verus! {

/// Separators in front of `x + y`: where `x` holds only separators they
/// reach into `y`; otherwise they end inside `x`.
pub proof fn lemma_skip_zeros_concat(x: Seq<u8>, y: Seq<u8>)
    ensures
        skip_zeros(x + y) == if skip_zeros(x).len() == 0 {
            skip_zeros(y)
        } else {
            skip_zeros(x) + y
        },
    decreases x.len(),
{
    if x.len() == 0 {
        assert(x + y == y);
    } else if x[0] == 0 {
        assert((x + y).drop_first() == x.drop_first() + y);
        lemma_skip_zeros_concat(x.drop_first(), y);
    } else {
        assert((x + y)[0] == x[0]);
    }
}

/// Receiving bytes in two chunks leaves the buffer as receiving them in
/// one chunk does, wherever the chunks are split; so the next decode gives
/// the same result and leaves the same bytes.
pub proof fn lemma_receive_in_two_chunks<F>(
    buf: Seq<u8>,
    x: Seq<u8>,
    y: Seq<u8>,
    answers: spec_fn(Seq<u8>) -> Result<(F, usize), DecodeError>,
)
    ensures
        after_receive(after_receive(buf, x), y) == after_receive(buf, x + y),
        decode_result(after_receive(after_receive(buf, x), y), answers) == decode_result(
            after_receive(buf, x + y),
            answers,
        ),
        after_take(after_receive(after_receive(buf, x), y)) == after_take(
            after_receive(buf, x + y),
        ),
{
    if buf.len() == 0 {
        lemma_skip_zeros_concat(x, y);
    } else {
        assert(buf + x + y == buf + (x + y));
    }
}

/// `[0]` alone is a run of separators that leaves nothing.
proof fn lemma_skip_one_zero()
    ensures
        skip_zeros(seq![0u8]) == Seq::<u8>::empty(),
{
    assert(seq![0u8].drop_first() == Seq::<u8>::empty());
    assert(skip_zeros(seq![0u8]) == skip_zeros(seq![0u8].drop_first()));
    assert(skip_zeros(Seq::<u8>::empty()) == Seq::<u8>::empty());
}

/// A single frame `v` and its separator: one decode takes it whole.
pub proof fn lemma_single_frame<F>(
    v: Seq<u8>,
    answers: spec_fn(Seq<u8>) -> Result<(F, usize), DecodeError>,
)
    requires
        no_zero(v),
    ensures
        decode_result(v + seq![0u8], answers) == match decoded(v) {
            Some(p) => outcome(answers(p)),
            None => Err(DecodeError::Malformed),
        },
        after_take(v + seq![0u8]) == Seq::<u8>::empty(),
{
    let t = v + seq![0u8];
    assert(t.subrange(0, v.len() as int) == v);
    assert(t.subrange(v.len() as int, t.len() as int) == seq![0u8]);
    assert(is_first_zero(t, v.len() as int));
    lemma_first_zero_at(t, v.len() as int);
    lemma_skip_one_zero();
}

/// A frame that the codec or the table refuses, followed by a frame: the
/// first decode gives `Malformed` and leaves exactly the second frame and
/// its separator; the next decode gives that frame's result and leaves
/// nothing.
pub proof fn lemma_resynchronize<F>(
    m: Seq<u8>,
    v: Seq<u8>,
    answers: spec_fn(Seq<u8>) -> Result<(F, usize), DecodeError>,
)
    requires
        no_zero(m),
        no_zero(v),
        v.len() > 0,
        match decoded(m) {
            Some(p) => answers(p) is Err,
            None => true,
        },
    ensures
        decode_result(m + seq![0u8] + v + seq![0u8], answers) == Err::<F, DecodeError>(
            DecodeError::Malformed,
        ),
        after_take(m + seq![0u8] + v + seq![0u8]) == v + seq![0u8],
        decode_result(v + seq![0u8], answers) == match decoded(v) {
            Some(p) => outcome(answers(p)),
            None => Err(DecodeError::Malformed),
        },
        after_take(v + seq![0u8]) == Seq::<u8>::empty(),
{
    let buf = m + seq![0u8] + v + seq![0u8];
    let t = v + seq![0u8];
    assert(buf.subrange(0, m.len() as int) == m);
    assert(is_first_zero(buf, m.len() as int));
    lemma_first_zero_at(buf, m.len() as int);
    assert(after_advance(buf, m.len() as int) == skip_zeros(seq![0u8] + t)) by {
        assert(buf.subrange(m.len() as int, buf.len() as int) == seq![0u8] + t);
    }
    lemma_skip_zeros_concat(seq![0u8], t);
    lemma_skip_one_zero();
    assert(t[0] == v[0]);
    lemma_single_frame(v, answers);
}

/// Separators that arrive before the first frame of an empty buffer are
/// dropped: the buffer then holds the frame and its separator, and the
/// first decode gives that frame's result.
pub proof fn lemma_leading_separators_dropped<F>(
    v: Seq<u8>,
    answers: spec_fn(Seq<u8>) -> Result<(F, usize), DecodeError>,
)
    requires
        no_zero(v),
        v.len() > 0,
    ensures
        after_receive(Seq::empty(), seq![0u8, 0u8] + v + seq![0u8]) == v + seq![0u8],
        decode_result(after_receive(Seq::empty(), seq![0u8, 0u8] + v + seq![0u8]), answers)
            == match decoded(v) {
            Some(p) => outcome(answers(p)),
            None => Err(DecodeError::Malformed),
        },
{
    let t = v + seq![0u8];
    assert(seq![0u8, 0u8] + v + seq![0u8] == seq![0u8, 0u8] + t);
    lemma_skip_zeros_concat(seq![0u8, 0u8], t);
    assert(seq![0u8, 0u8].drop_first() == seq![0u8]);
    assert(skip_zeros(seq![0u8, 0u8]) == skip_zeros(seq![0u8]));
    lemma_skip_one_zero();
    assert(t[0] == v[0]);
    lemma_single_frame(v, answers);
}

/// A decode depends on the buffered bytes and the table's answers alone:
/// two buffers with the same bytes, under tables that answer alike, give
/// the same result and are left the same.
pub proof fn lemma_decode_deterministic<F>(
    a: Seq<u8>,
    b: Seq<u8>,
    answers_a: spec_fn(Seq<u8>) -> Result<(F, usize), DecodeError>,
    answers_b: spec_fn(Seq<u8>) -> Result<(F, usize), DecodeError>,
)
    requires
        a == b,
        forall|p: Seq<u8>| #[trigger] answers_a(p) == answers_b(p),
    ensures
        decode_result(a, answers_a) == decode_result(b, answers_b),
        after_take(a) == after_take(b),
{
}

} // verus!
