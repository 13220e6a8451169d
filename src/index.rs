//! The offset index: one 8-byte big-endian offset per record line.
use vstd::prelude::*;

verus! {

/// `x` as 8 bytes, most significant first.
pub open spec fn be_bytes(x: u64) -> Seq<u8> {
    seq![
        (x >> 56u64) as u8,
        (x >> 48u64) as u8,
        (x >> 40u64) as u8,
        (x >> 32u64) as u8,
        (x >> 24u64) as u8,
        (x >> 16u64) as u8,
        (x >> 8u64) as u8,
        x as u8,
    ]
}

/// The integer that 8 bytes give, read most significant first.
pub open spec fn be_value(b: Seq<u8>) -> u64 {
    ((b[0] as u64) << 56u64) | ((b[1] as u64) << 48u64) | ((b[2] as u64) << 40u64) | ((
    b[3] as u64) << 32u64) | ((b[4] as u64) << 24u64) | ((b[5] as u64) << 16u64) | ((
    b[6] as u64) << 8u64) | (b[7] as u64)
}

/// The index file for the given offsets: their big-endian entries, in order.
pub open spec fn index_bytes(offsets: Seq<int>) -> Seq<u8>
    decreases offsets.len(),
{
    if offsets.len() == 0 {
        Seq::empty()
    } else {
        index_bytes(offsets.drop_last()) + be_bytes(offsets.last() as u64)
    }
}

/// Entry `i` of an index file.
pub open spec fn entry(index: Seq<u8>, i: int) -> u64 {
    be_value(index.subrange(i * 8, i * 8 + 8))
}

/// Reading back an entry gives the offset that was written.
pub proof fn lemma_be_round_trip(x: u64)
    ensures
        be_value(be_bytes(x)) == x,
{
    let b0 = (x >> 56u64) as u8;
    let b1 = (x >> 48u64) as u8;
    let b2 = (x >> 40u64) as u8;
    let b3 = (x >> 32u64) as u8;
    let b4 = (x >> 24u64) as u8;
    let b5 = (x >> 16u64) as u8;
    let b6 = (x >> 8u64) as u8;
    let b7 = x as u8;
    assert(((b0 as u64) << 56u64) | ((b1 as u64) << 48u64) | ((b2 as u64) << 40u64) | ((
    b3 as u64) << 32u64) | ((b4 as u64) << 24u64) | ((b5 as u64) << 16u64) | ((b6 as u64)
        << 8u64) | (b7 as u64) == x) by (bit_vector)
        requires
            b0 == (x >> 56u64) as u8,
            b1 == (x >> 48u64) as u8,
            b2 == (x >> 40u64) as u8,
            b3 == (x >> 32u64) as u8,
            b4 == (x >> 24u64) as u8,
            b5 == (x >> 16u64) as u8,
            b6 == (x >> 8u64) as u8,
            b7 == x as u8,
    ;
}

/// An index file holds 8 bytes per offset, and entry `i` is offset `i`.
pub proof fn lemma_index_entries(offsets: Seq<int>)
    requires
        forall|i: int| 0 <= i < offsets.len() ==> 0 <= #[trigger] offsets[i] <= u64::MAX,
    ensures
        index_bytes(offsets).len() == 8 * offsets.len(),
        forall|i: int| 0 <= i < offsets.len() ==> #[trigger] entry(index_bytes(offsets), i) == offsets[i],
    decreases offsets.len(),
{
    if offsets.len() > 0 {
        let init = offsets.drop_last();
        lemma_index_entries(init);
        let n = offsets.len() - 1;
        assert forall|i: int| 0 <= i < offsets.len() implies #[trigger] entry(index_bytes(offsets), i) == offsets[i] by {
            assert(0 <= i * 8 + 8 <= 8 * offsets.len()) by (nonlinear_arith)
                requires 0 <= i < offsets.len();
            if i < n {
                assert(i * 8 + 8 <= 8 * n) by (nonlinear_arith)
                    requires 0 <= i < n;
                assert(entry(index_bytes(init), i) == init[i]);
                assert(index_bytes(offsets).subrange(i * 8, i * 8 + 8) =~= index_bytes(init).subrange(i * 8, i * 8 + 8));
                assert(init[i] == offsets[i]);
            } else {
                assert(i * 8 == 8 * n);
                assert(index_bytes(offsets).subrange(i * 8, i * 8 + 8) =~= be_bytes(offsets.last() as u64));
                lemma_be_round_trip(offsets.last() as u64);
            }
        }
    }
}

/// The index of two runs of offsets is the index of the first followed by that of the second.
pub proof fn lemma_index_prefix(a: Seq<int>, b: Seq<int>)
    ensures
        index_bytes(a + b) == index_bytes(a) + index_bytes(b),
        index_bytes(a).len() == 8 * a.len(),
        (index_bytes(a) + index_bytes(b)).skip(8 * a.len() as int) == index_bytes(b),
    decreases b.len(),
{
    lemma_index_len(a);
    if b.len() == 0 {
        assert(a + b =~= a);
        assert(index_bytes(a) + index_bytes(b) =~= index_bytes(a));
    } else {
        lemma_index_prefix(a, b.drop_last());
        assert((a + b).drop_last() =~= a + b.drop_last());
        assert(index_bytes(a + b) =~= index_bytes(a) + index_bytes(b));
    }
    assert((index_bytes(a) + index_bytes(b)).skip(8 * a.len() as int) =~= index_bytes(b));
}

/// An index holds 8 bytes per offset.
pub proof fn lemma_index_len(a: Seq<int>)
    ensures
        index_bytes(a).len() == 8 * a.len(),
    decreases a.len(),
{
    if a.len() > 0 {
        lemma_index_len(a.drop_last());
    }
}

/// Appends the big-endian entry of `x`.
pub fn push_entry(buf: &mut Vec<u8>, x: u64)
    ensures
        final(buf)@ == old(buf)@ + be_bytes(x),
{
    buf.push((x >> 56u64) as u8);
    buf.push((x >> 48u64) as u8);
    buf.push((x >> 40u64) as u8);
    buf.push((x >> 32u64) as u8);
    buf.push((x >> 24u64) as u8);
    buf.push((x >> 16u64) as u8);
    buf.push((x >> 8u64) as u8);
    buf.push(x as u8);
    assert(buf@ =~= old(buf)@ + be_bytes(x));
}

/// The index file bytes for the given offsets.
pub fn encode_offsets(offsets: &[u64]) -> (r: Vec<u8>)
    ensures
        r@ == index_bytes(offsets@.map_values(|o: u64| o as int)),
{
    let mut out: Vec<u8> = Vec::new();
    let mut i: usize = 0;
    while i < offsets.len()
        invariant
            i <= offsets@.len(),
            out@ == index_bytes(offsets@.take(i as int).map_values(|o: u64| o as int)),
        decreases offsets@.len() - i,
    {
        push_entry(&mut out, offsets[i]);
        let ghost next = offsets@.take(i + 1).map_values(|o: u64| o as int);
        assert(next.drop_last() =~= offsets@.take(i as int).map_values(|o: u64| o as int));
        i += 1;
    }
    assert(offsets@.take(i as int) =~= offsets@);
    out
}

} // verus!
