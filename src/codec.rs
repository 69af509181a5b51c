use vstd::prelude::*;

use crate::error::DecodeError;

verus! {

/// Puts `out` in front of the output of a decoding step that may fail.
pub open spec fn prepend(out: Seq<u8>, r: Option<Seq<u8>>) -> Option<Seq<u8>> {
    match r {
        Some(t) => Some(out + t),
        None => None,
    }
}

/// Puts `out` in front of the output of a step that also hands back the
/// input it left unread.
pub open spec fn prepend_pair(
    out: Seq<u8>,
    r: Option<(Seq<u8>, Seq<u8>)>,
) -> Option<(Seq<u8>, Seq<u8>)> {
    match r {
        Some((o, rest)) => Some((out + o, rest)),
        None => None,
    }
}

/// Flag `i` of a bitmap control byte (flag 0 is bit 6, flag 6 is bit 0).
pub open spec fn flag_set(c: u8, i: int) -> bool {
    c & (1u8 << ((6 - i) as u8)) != 0
}

/// Takes `n` bytes from the end of `rest`, last byte first.
/// Returns them and what is left of `rest`; `None` if `rest` is too short.
pub open spec fn take_back(n: nat, rest: Seq<u8>) -> Option<(Seq<u8>, Seq<u8>)>
    decreases n,
{
    if n == 0 {
        Some((Seq::empty(), rest))
    } else if rest.len() == 0 {
        None
    } else {
        prepend_pair(seq![rest.last()], take_back((n - 1) as nat, rest.drop_last()))
    }
}

/// Flags `i..7` of bitmap control byte `c`, in processing order: a set flag
/// gives a zero byte, a clear one the next byte taken from the end of `rest`.
pub open spec fn bitmap_run(c: u8, i: int, rest: Seq<u8>) -> Option<(Seq<u8>, Seq<u8>)>
    decreases 7 - i,
{
    if i >= 7 {
        Some((Seq::empty(), rest))
    } else if flag_set(c, i) {
        prepend_pair(seq![0u8], bitmap_run(c, i + 1, rest))
    } else if rest.len() == 0 {
        None
    } else {
        prepend_pair(seq![rest.last()], bitmap_run(c, i + 1, rest.drop_last()))
    }
}

/// Length of the zero-plus-run that control byte `c` (`0x80..=0xfe`) announces.
pub open spec fn run_len(c: u8) -> nat {
    ((c & 0x7f) + 7) as nat
}

/// What control byte `c` emits, in processing order, when `rest` is the
/// input not yet processed; with what it leaves of `rest`.
pub open spec fn control_step(c: u8, rest: Seq<u8>) -> Option<(Seq<u8>, Seq<u8>)> {
    if c == 0 {
        None
    } else if c < 0x80 {
        bitmap_run(c, 0, rest)
    } else if c < 0xff {
        prepend_pair(seq![0u8], take_back(run_len(c), rest))
    } else {
        take_back(134, rest)
    }
}

/// Output of decoding `s` from its last byte towards its first, in the order
/// in which it is produced (the reverse of the payload).
pub open spec fn unpack(s: Seq<u8>) -> Option<Seq<u8>>
    decreases s.len(),
{
    if s.len() == 0 {
        Some(Seq::empty())
    } else {
        match control_step(s.last(), s.drop_last()) {
            None => None,
            Some((o, r)) => {
                proof {
                    lemma_control_step_shrinks(s.last(), s.drop_last());
                }
                prepend(o, unpack(r))
            },
        }
    }
}

/// The payload that the encoded bytes `s` stand for; `None` where `s` breaks
/// the encoding.
pub open spec fn decoded(s: Seq<u8>) -> Option<Seq<u8>> {
    match unpack(s) {
        Some(t) => Some(t.reverse()),
        None => None,
    }
}

pub proof fn lemma_prepend_assoc(a: Seq<u8>, b: Seq<u8>, r: Option<Seq<u8>>)
    ensures
        prepend(a, prepend(b, r)) == prepend(a + b, r),
{
    if let Some(t) = r {
        assert(a + (b + t) =~= (a + b) + t);
    }
}

pub proof fn lemma_prepend_pair_assoc(a: Seq<u8>, b: Seq<u8>, r: Option<(Seq<u8>, Seq<u8>)>)
    ensures
        prepend_pair(a, prepend_pair(b, r)) == prepend_pair(a + b, r),
{
    if let Some((o, rest)) = r {
        assert(a + (b + o) =~= (a + b) + o);
    }
}

pub proof fn lemma_prepend_pair_empty(r: Option<(Seq<u8>, Seq<u8>)>)
    ensures
        prepend_pair(Seq::empty(), r) == r,
{
    if let Some((o, rest)) = r {
        assert(Seq::<u8>::empty() + o =~= o);
    }
}

pub proof fn lemma_take_back_shrinks(n: nat, rest: Seq<u8>)
    ensures
        take_back(n, rest) matches Some((o, r)) ==> r.len() <= rest.len(),
    decreases n,
{
    if n > 0 && rest.len() > 0 {
        lemma_take_back_shrinks((n - 1) as nat, rest.drop_last());
    }
}

pub proof fn lemma_bitmap_run_shrinks(c: u8, i: int, rest: Seq<u8>)
    ensures
        bitmap_run(c, i, rest) matches Some((o, r)) ==> r.len() <= rest.len(),
    decreases 7 - i,
{
    if i < 7 {
        if flag_set(c, i) {
            lemma_bitmap_run_shrinks(c, i + 1, rest);
        } else if rest.len() > 0 {
            lemma_bitmap_run_shrinks(c, i + 1, rest.drop_last());
        }
    }
}

pub proof fn lemma_control_step_shrinks(c: u8, rest: Seq<u8>)
    ensures
        control_step(c, rest) matches Some((o, r)) ==> r.len() <= rest.len(),
{
    lemma_bitmap_run_shrinks(c, 0, rest);
    lemma_take_back_shrinks(run_len(c), rest);
    lemma_take_back_shrinks(134, rest);
}

/// Moves `n` bytes from the end of `data[..pos]` to the end of `res`, last
/// byte first, and shortens `pos` by as many. Returns false where fewer
/// than `n` bytes are left.
fn take_literals(data: &[u8], pos: &mut usize, n: u8, res: &mut Vec<u8>) -> (ok: bool)
    requires
        *old(pos) <= data@.len(),
    ensures
        *final(pos) <= *old(pos),
        final(res)@.len() >= old(res)@.len(),
        final(res)@.subrange(0, old(res)@.len() as int) == old(res)@,
        ok ==> take_back(n as nat, data@.subrange(0, *old(pos) as int)) == Some(
            (
                final(res)@.subrange(old(res)@.len() as int, final(res)@.len() as int),
                data@.subrange(0, *final(pos) as int),
            ),
        ),
        !ok ==> take_back(n as nat, data@.subrange(0, *old(pos) as int)) is None,
{
    let ghost start = res@.len();
    let ghost whole = take_back(n as nat, data@.subrange(0, *pos as int));
    let mut j: u8 = 0;
    proof {
        assert(res@.subrange(start as int, res@.len() as int) == Seq::<u8>::empty());
        assert(res@.subrange(0, start as int) == res@);
        lemma_prepend_pair_empty(whole);
    }
    while j < n
        invariant
            j <= n,
            *pos <= *old(pos),
            *old(pos) <= data@.len(),
            res@.len() >= start,
            start == old(res)@.len(),
            res@.subrange(0, start as int) == old(res)@,
            whole == take_back(n as nat, data@.subrange(0, *old(pos) as int)),
            whole == prepend_pair(
                res@.subrange(start as int, res@.len() as int),
                take_back((n - j) as nat, data@.subrange(0, *pos as int)),
            ),
        decreases n - j,
    {
        let ghost block = res@.subrange(start as int, res@.len() as int);
        let ghost rest = data@.subrange(0, *pos as int);
        if *pos == 0 {
            return false;
        }
        let b = data[*pos - 1];
        res.push(b);
        *pos = *pos - 1;
        proof {
            assert(rest.drop_last() == data@.subrange(0, *pos as int));
            lemma_prepend_pair_assoc(block, seq![b], take_back((n - j - 1) as nat, rest.drop_last()));
            assert(res@.subrange(start as int, res@.len() as int) == block + seq![b]);
            assert(res@.subrange(0, start as int) == old(res)@);
        }
        j = j + 1;
    }
    proof {
        let block = res@.subrange(start as int, res@.len() as int);
        assert(block + Seq::<u8>::empty() == block);
    }
    true
}

/// Decodes one complete rzCOBS frame: `data` is everything before its
/// `0x00` separator. The control bytes are read from the last byte towards
/// the first, and the output is reversed once at the end.
pub fn rzcobs_decode(data: &[u8]) -> (r: Result<Vec<u8>, DecodeError>)
    ensures
        match r {
            Ok(v) => decoded(data@) == Some(v@),
            Err(e) => decoded(data@) is None && e == DecodeError::Malformed,
        },
{
    let mut res: Vec<u8> = Vec::new();
    let mut pos: usize = data.len();
    proof {
        assert(data@.subrange(0, pos as int) == data@);
    }
    while pos > 0
        invariant
            pos <= data.len(),
            unpack(data@) == prepend(res@, unpack(data@.subrange(0, pos as int))),
        decreases pos,
    {
        let x = data[pos - 1];
        let ghost s = data@.subrange(0, pos as int);
        let ghost before = res@;
        pos = pos - 1;
        proof {
            assert(s.last() == x);
            assert(s.drop_last() == data@.subrange(0, pos as int));
        }
        let ghost rest_end = pos;
        let ghost step = control_step(x, data@.subrange(0, pos as int));
        assert(unpack(s) == match step {
            None => None,
            Some((o, r)) => prepend(o, unpack(r)),
        });
        if x == 0 {
            return Err(DecodeError::Malformed);
        } else if x < 0x80 {
            let mut i: u8 = 0;
            proof {
                assert(res@.subrange(before.len() as int, res@.len() as int) == Seq::<u8>::empty());
                assert(res@.subrange(0, before.len() as int) == before);
                lemma_prepend_pair_empty(step);
            }
            while i < 7
                invariant
                    i <= 7,
                    x != 0 && x < 0x80,
                    pos <= rest_end,
                    rest_end < data.len(),
                    s == data@.subrange(0, rest_end + 1),
                    unpack(data@) == prepend(before, unpack(s)),
                    step is None ==> unpack(data@) is None,
                    step == control_step(x, data@.subrange(0, rest_end as int)),
                    res@.len() >= before.len(),
                    res@.subrange(0, before.len() as int) == before,
                    step == prepend_pair(
                        res@.subrange(before.len() as int, res@.len() as int),
                        bitmap_run(x, i as int, data@.subrange(0, pos as int)),
                    ),
                decreases 7 - i,
            {
                let ghost block = res@.subrange(before.len() as int, res@.len() as int);
                let ghost rest = data@.subrange(0, pos as int);
                if x & (1u8 << (6 - i)) == 0 {
                    if pos == 0 {
                        proof {
                            assert(bitmap_run(x, i as int, rest) is None);
                            assert(step is None);
                            assert(unpack(data@) is None);
                        }
                        return Err(DecodeError::Malformed);
                    }
                    let b = data[pos - 1];
                    res.push(b);
                    pos = pos - 1;
                    proof {
                        assert(rest.drop_last() == data@.subrange(0, pos as int));
                        lemma_prepend_pair_assoc(block, seq![b], bitmap_run(x, i + 1, rest.drop_last()));
                        assert(res@.subrange(before.len() as int, res@.len() as int) == block + seq![b]);
                    }
                } else {
                    res.push(0);
                    proof {
                        lemma_prepend_pair_assoc(block, seq![0u8], bitmap_run(x, i + 1, rest));
                        assert(res@.subrange(before.len() as int, res@.len() as int) == block + seq![0u8]);
                    }
                }
                i = i + 1;
            }
        } else if x < 0xff {
            assert(x & 0x7f <= 0x7f) by (bit_vector);
            let n: u8 = (x & 0x7f) + 7;
            res.push(0);
            let ghost mid = res@;
            proof {
                assert(mid.subrange(0, before.len() as int) == before);
            }
            if !take_literals(data, &mut pos, n, &mut res) {
                return Err(DecodeError::Malformed);
            }
            proof {
                assert(res@.subrange(0, before.len() as int) == before) by {
                    assert(res@.subrange(0, before.len() as int) == res@.subrange(0, mid.len() as int).subrange(0, before.len() as int));
                }
                assert(res@.subrange(before.len() as int, res@.len() as int) == seq![0u8] + res@.subrange(mid.len() as int, res@.len() as int)) by {
                    assert(res@[before.len() as int] == mid[before.len() as int]);
                }
            }
        } else {
            if !take_literals(data, &mut pos, 134, &mut res) {
                return Err(DecodeError::Malformed);
            }
        }
        proof {
            let block = res@.subrange(before.len() as int, res@.len() as int);
            let rest = data@.subrange(0, pos as int);
            assert(block + Seq::<u8>::empty() == block);
            assert(step == Some((block, rest)));
            lemma_prepend_assoc(before, block, unpack(rest));
            assert(res@ == before + block);
        }
    }
    proof {
        assert(data@.subrange(0, 0) == Seq::<u8>::empty());
        assert(res@ + Seq::<u8>::empty() == res@);
    }
    let mut out: Vec<u8> = Vec::with_capacity(res.len());
    let mut k: usize = res.len();
    while k > 0
        invariant
            k <= res.len(),
            out@.len() == res.len() - k,
            forall|t: int| 0 <= t < out@.len() ==> out@[t] == res@[res.len() - 1 - t],
        decreases k,
    {
        out.push(res[k - 1]);
        k = k - 1;
    }
    proof {
        assert(out@ == res@.reverse());
    }
    Ok(out)
}

} // verus!
