use vstd::prelude::*;

verus! {

/// `s` holds no separator byte.
pub open spec fn no_zero(s: Seq<u8>) -> bool {
    forall|i: int| 0 <= i < s.len() ==> s[i] != 0
}

/// `z` is the position of the first separator in `buf`.
pub open spec fn is_first_zero(buf: Seq<u8>, z: int) -> bool {
    &&& 0 <= z < buf.len()
    &&& buf[z] == 0
    &&& no_zero(buf.subrange(0, z))
}

/// The position of the first separator in `buf`, where it holds one.
pub open spec fn first_zero(buf: Seq<u8>) -> int {
    choose|z: int| is_first_zero(buf, z)
}

/// A buffer holds at most one first separator.
pub proof fn lemma_first_zero_unique(buf: Seq<u8>, a: int, b: int)
    requires
        is_first_zero(buf, a),
        is_first_zero(buf, b),
    ensures
        a == b,
{
    if a < b {
        assert(buf.subrange(0, b)[a] == buf[a]);
    } else if b < a {
        assert(buf.subrange(0, a)[b] == buf[b]);
    }
}

/// Where a first separator is known, it is the one `first_zero` names.
pub proof fn lemma_first_zero_at(buf: Seq<u8>, z: int)
    requires
        is_first_zero(buf, z),
    ensures
        first_zero(buf) == z,
        !no_zero(buf),
{
    lemma_first_zero_unique(buf, z, first_zero(buf));
}

/// `s` without its leading run of separator bytes.
pub open spec fn skip_zeros(s: Seq<u8>) -> Seq<u8>
    decreases s.len(),
{
    if s.len() > 0 && s[0] == 0 {
        skip_zeros(s.drop_first())
    } else {
        s
    }
}

/// A buffer in which no separator is left dangling at the front.
pub open spec fn trimmed(buf: Seq<u8>) -> bool {
    buf.len() == 0 || buf[0] != 0
}

/// The buffer after `data` arrives: into an empty buffer, leading
/// separators are dropped; otherwise `data` is appended as it is.
pub open spec fn after_receive(buf: Seq<u8>, data: Seq<u8>) -> Seq<u8> {
    if buf.len() == 0 {
        skip_zeros(data)
    } else {
        buf + data
    }
}

/// The buffer once the frame before position `z` has been taken: the frame
/// goes, and so does the run of separators that follows it.
pub open spec fn after_advance(buf: Seq<u8>, z: int) -> Seq<u8> {
    skip_zeros(buf.subrange(z, buf.len() as int))
}

/// The buffer after one attempt to take a frame: unchanged without a
/// separator, else advanced past the first frame and its separators.
pub open spec fn after_take(buf: Seq<u8>) -> Seq<u8> {
    if no_zero(buf) {
        buf
    } else {
        after_advance(buf, first_zero(buf))
    }
}

/// Skipping a run of `k` separators that ends at a data byte or at the end.
pub proof fn lemma_skip_zeros_at(s: Seq<u8>, k: int)
    requires
        0 <= k <= s.len(),
        forall|i: int| 0 <= i < k ==> s[i] == 0,
        k == s.len() || s[k] != 0,
    ensures
        skip_zeros(s) == s.subrange(k, s.len() as int),
    decreases k,
{
    if k == 0 {
        assert(s.subrange(0, s.len() as int) == s);
    } else {
        let t = s.drop_first();
        assert forall|i: int| 0 <= i < k - 1 implies t[i] == 0 by {
            assert(s[i + 1] == 0);
        }
        lemma_skip_zeros_at(t, k - 1);
        assert(t.subrange(k - 1, t.len() as int) == s.subrange(k, s.len() as int));
    }
}

/// What `skip_zeros` leaves is empty or starts with a data byte.
pub proof fn lemma_skip_zeros_trimmed(s: Seq<u8>)
    ensures
        trimmed(skip_zeros(s)),
    decreases s.len(),
{
    if s.len() > 0 && s[0] == 0 {
        lemma_skip_zeros_trimmed(s.drop_first());
    }
}

/// Position of the first separator in `raw`, if it holds one.
pub fn find_separator(raw: &Vec<u8>) -> (r: Option<usize>)
    ensures
        match r {
            Some(z) => is_first_zero(raw@, z as int),
            None => no_zero(raw@),
        },
{
    let mut i: usize = 0;
    while i < raw.len()
        invariant
            i <= raw.len(),
            forall|j: int| 0 <= j < i ==> raw@[j] != 0,
        decreases raw.len() - i,
    {
        if raw[i] == 0 {
            proof {
                assert forall|j: int| 0 <= j < i implies #[trigger] raw@.subrange(0, i as int)[j] != 0 by {
                    assert(raw@.subrange(0, i as int)[j] == raw@[j]);
                }
            }
            return Some(i);
        }
        i = i + 1;
    }
    None
}

/// Position of the first data byte at or after `from`, or `s.len()`.
fn skip_separators(s: &[u8], from: usize) -> (r: usize)
    requires
        from <= s@.len(),
    ensures
        from <= r <= s@.len(),
        forall|i: int| from <= i < r ==> s@[i] == 0,
        r == s@.len() || s@[r as int] != 0,
{
    let mut k: usize = from;
    while k < s.len() && s[k] == 0
        invariant
            from <= k <= s@.len(),
            forall|i: int| from <= i < k ==> s@[i] == 0,
        decreases s@.len() - k,
    {
        k = k + 1;
    }
    k
}

/// Appends newly received bytes; into an empty buffer, without their
/// leading separators.
pub fn received_inner(raw: &mut Vec<u8>, data: &[u8])
    ensures
        final(raw)@ == after_receive(old(raw)@, data@),
        trimmed(old(raw)@) ==> trimmed(final(raw)@),
{
    let start: usize = if raw.len() == 0 {
        skip_separators(data, 0)
    } else {
        0
    };
    proof {
        if old(raw)@.len() == 0 {
            lemma_skip_zeros_at(data@, start as int);
            lemma_skip_zeros_trimmed(data@);
        } else {
            assert(data@.subrange(0, data@.len() as int) == data@);
        }
    }
    let ghost base = raw@;
    let mut i: usize = start;
    while i < data.len()
        invariant
            start <= i <= data@.len(),
            raw@ == base + data@.subrange(start as int, i as int),
        decreases data@.len() - i,
    {
        raw.push(data[i]);
        i = i + 1;
        proof {
            assert(raw@ == base + data@.subrange(start as int, i as int));
        }
    }
}

/// Drops the frame that ends at `zero` and the separators that follow it,
/// so that a frame is left behind whether or not it decoded.
pub fn advance_inner(raw: &mut Vec<u8>, zero: usize)
    requires
        zero <= old(raw)@.len(),
    ensures
        final(raw)@ == after_advance(old(raw)@, zero as int),
        trimmed(final(raw)@),
{
    let k = skip_separators(raw.as_slice(), zero);
    let ghost tail = raw@.subrange(zero as int, raw@.len() as int);
    proof {
        assert forall|i: int| 0 <= i < k - zero implies tail[i] == 0 by {
            assert(tail[i] == raw@[zero + i]);
        }
        lemma_skip_zeros_at(tail, k - zero);
        assert(tail.subrange(k - zero, tail.len() as int) == raw@.subrange(k as int, raw@.len() as int));
        lemma_skip_zeros_trimmed(tail);
    }
    if k < raw.len() {
        let rest = raw.split_off(k);
        *raw = rest;
    } else {
        raw.clear();
    }
}

} // verus!
