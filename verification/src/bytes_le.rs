//! Little-endian encoding of fixed-width integers, as the index file uses it.
use vstd::prelude::*;

verus! {

/// The 16-bit value stored little-endian at `data[i..i + 2]`.
pub open spec fn u16_at(data: Seq<u8>, i: int) -> u16 {
    (data[i] + 256 * data[i + 1]) as u16
}

/// The 32-bit value stored little-endian at `data[i..i + 4]`.
pub open spec fn u32_at(data: Seq<u8>, i: int) -> u32 {
    (data[i] + 256 * data[i + 1] + 65536 * data[i + 2] + 16777216 * data[i + 3]) as u32
}

/// The two little-endian bytes of `v`.
pub open spec fn u16_bytes(v: u16) -> Seq<u8> {
    seq![(v % 256) as u8, (v / 256) as u8]
}

/// The four little-endian bytes of `v`.
pub open spec fn u32_bytes(v: u32) -> Seq<u8> {
    seq![
        (v % 256) as u8,
        ((v / 256) % 256) as u8,
        ((v / 65536) % 256) as u8,
        (v / 16777216) as u8,
    ]
}

/// The bytes of `v` in two's complement, little-endian.
pub open spec fn i16_bytes(v: i16) -> Seq<u8> {
    u16_bytes(v as u16)
}

/// Each value of `s` as four little-endian bytes, one after the other.
pub open spec fn u32_seq_bytes(s: Seq<u32>) -> Seq<u8> {
    Seq::new(4 * s.len(), |k: int| u32_bytes(s[k / 4])[k % 4])
}

/// Each value of `s` as two little-endian bytes, one after the other.
pub open spec fn i16_seq_bytes(s: Seq<i16>) -> Seq<u8> {
    Seq::new(2 * s.len(), |k: int| i16_bytes(s[k / 2])[k % 2])
}

/// `count` 32-bit values read little-endian from `data`, starting at `pos`.
pub open spec fn u32s_at(data: Seq<u8>, pos: int, count: nat) -> Seq<u32> {
    Seq::new(count, |i: int| u32_at(data, pos + 4 * i))
}

/// `count` signed 16-bit values read little-endian from `data`, starting at `pos`.
pub open spec fn i16s_at(data: Seq<u8>, pos: int, count: nat) -> Seq<i16> {
    Seq::new(count, |i: int| u16_at(data, pos + 2 * i) as i16)
}

/// Decoding the little-endian bytes of a 16-bit value gives it back.
pub proof fn lemma_u16_round_trip(v: u16)
    ensures
        u16_at(u16_bytes(v), 0) == v,
        u16_bytes(v).len() == 2,
{
}

/// Decoding the little-endian bytes of a 32-bit value gives it back.
pub proof fn lemma_u32_round_trip(v: u32)
    ensures
        u32_at(u32_bytes(v), 0) == v,
        u32_bytes(v).len() == 4,
{
}

/// Decoding the bytes of a signed 16-bit value gives it back.
pub proof fn lemma_i16_round_trip(v: i16)
    ensures
        u16_at(i16_bytes(v), 0) as i16 == v,
        i16_bytes(v).len() == 2,
{
    lemma_u16_round_trip(v as u16);
    assert(((v as u16) as i16) == v) by (bit_vector);
}

/// Reading 32-bit values back from a buffer whose bytes at `pos` are the
/// encoding of `s` gives `s`.
pub proof fn lemma_u32s_at_encoding(d: Seq<u8>, pos: int, s: Seq<u32>)
    requires
        0 <= pos,
        pos + 4 * s.len() <= d.len(),
        d.subrange(pos, pos + 4 * s.len()) == u32_seq_bytes(s),
    ensures
        u32s_at(d, pos, s.len()) == s,
{
    let e = u32_seq_bytes(s);
    assert forall|i: int| 0 <= i < s.len() implies #[trigger] u32_at(d, pos + 4 * i) == s[i] by {
        lemma_u32_round_trip(s[i]);
        assert(d[pos + 4 * i] == e[4 * i]);
        assert(d[pos + 4 * i + 1] == e[4 * i + 1]);
        assert(d[pos + 4 * i + 2] == e[4 * i + 2]);
        assert(d[pos + 4 * i + 3] == e[4 * i + 3]);
        assert((4 * i) / 4 == i && (4 * i) % 4 == 0);
        assert((4 * i + 1) / 4 == i && (4 * i + 1) % 4 == 1);
        assert((4 * i + 2) / 4 == i && (4 * i + 2) % 4 == 2);
        assert((4 * i + 3) / 4 == i && (4 * i + 3) % 4 == 3);
    }
    assert(u32s_at(d, pos, s.len()) =~= s);
}

/// Reading signed 16-bit values back from a buffer whose bytes at `pos` are
/// the encoding of `s` gives `s`.
pub proof fn lemma_i16s_at_encoding(d: Seq<u8>, pos: int, s: Seq<i16>)
    requires
        0 <= pos,
        pos + 2 * s.len() <= d.len(),
        d.subrange(pos, pos + 2 * s.len()) == i16_seq_bytes(s),
    ensures
        i16s_at(d, pos, s.len()) == s,
{
    let e = i16_seq_bytes(s);
    assert forall|i: int| 0 <= i < s.len() implies #[trigger] (u16_at(d, pos + 2 * i) as i16)
        == s[i] by {
        lemma_i16_round_trip(s[i]);
        assert(d[pos + 2 * i] == e[2 * i]);
        assert(d[pos + 2 * i + 1] == e[2 * i + 1]);
        assert((2 * i) / 2 == i && (2 * i) % 2 == 0);
        assert((2 * i + 1) / 2 == i && (2 * i + 1) % 2 == 1);
    }
    assert(i16s_at(d, pos, s.len()) =~= s);
}

/// Encoding one more value appends its bytes.
pub proof fn lemma_u32_seq_bytes_push(s: Seq<u32>, i: int)
    requires
        0 <= i < s.len(),
    ensures
        u32_seq_bytes(s.take(i + 1)) == u32_seq_bytes(s.take(i)) + u32_bytes(s[i]),
{
    let l = u32_seq_bytes(s.take(i + 1));
    let r = u32_seq_bytes(s.take(i)) + u32_bytes(s[i]);
    assert forall|k: int| 0 <= k < l.len() implies l[k] == r[k] by {
        if k < 4 * i {
            assert(s.take(i + 1)[k / 4] == s.take(i)[k / 4]);
        } else {
            assert(k / 4 == i);
        }
    }
    assert(l =~= r);
}

/// Encoding one more value appends its bytes.
pub proof fn lemma_i16_seq_bytes_push(s: Seq<i16>, i: int)
    requires
        0 <= i < s.len(),
    ensures
        i16_seq_bytes(s.take(i + 1)) == i16_seq_bytes(s.take(i)) + i16_bytes(s[i]),
{
    let l = i16_seq_bytes(s.take(i + 1));
    let r = i16_seq_bytes(s.take(i)) + i16_bytes(s[i]);
    assert forall|k: int| 0 <= k < l.len() implies l[k] == r[k] by {
        if k < 2 * i {
            assert(s.take(i + 1)[k / 2] == s.take(i)[k / 2]);
        } else {
            assert(k / 2 == i);
        }
    }
    assert(l =~= r);
}

/// Appends the little-endian encoding of every value of `s`.
pub fn push_u32_seq(out: &mut Vec<u8>, s: &[u32])
    ensures
        final(out)@ == old(out)@ + u32_seq_bytes(s@),
{
    let ghost start = out@;
    let mut i: usize = 0;
    assert(u32_seq_bytes(s@.take(0)) =~= Seq::<u8>::empty());
    assert(out@ =~= start + u32_seq_bytes(s@.take(0)));
    while i < s.len()
        invariant
            i <= s@.len(),
            out@ == start + u32_seq_bytes(s@.take(i as int)),
        decreases s@.len() - i,
    {
        push_u32(out, s[i]);
        proof {
            lemma_u32_seq_bytes_push(s@, i as int);
        }
        i += 1;
        assert(out@ =~= start + u32_seq_bytes(s@.take(i as int)));
    }
    assert(s@.take(i as int) =~= s@);
}

/// Appends the little-endian two's complement encoding of every value of `s`.
pub fn push_i16_seq(out: &mut Vec<u8>, s: &[i16])
    ensures
        final(out)@ == old(out)@ + i16_seq_bytes(s@),
{
    let ghost start = out@;
    let mut i: usize = 0;
    assert(i16_seq_bytes(s@.take(0)) =~= Seq::<u8>::empty());
    assert(out@ =~= start + i16_seq_bytes(s@.take(0)));
    while i < s.len()
        invariant
            i <= s@.len(),
            out@ == start + i16_seq_bytes(s@.take(i as int)),
        decreases s@.len() - i,
    {
        push_u16(out, s[i] as u16);
        proof {
            lemma_i16_seq_bytes_push(s@, i as int);
        }
        i += 1;
        assert(out@ =~= start + i16_seq_bytes(s@.take(i as int)));
    }
    assert(s@.take(i as int) =~= s@);
}

/// Appends every byte of `s`.
pub fn push_bytes(out: &mut Vec<u8>, s: &[u8])
    ensures
        final(out)@ == old(out)@ + s@,
{
    let ghost start = out@;
    let mut i: usize = 0;
    while i < s.len()
        invariant
            i <= s@.len(),
            out@ == start + s@.take(i as int),
        decreases s@.len() - i,
    {
        out.push(s[i]);
        i += 1;
        assert(out@ =~= start + s@.take(i as int));
    }
    assert(s@.take(i as int) =~= s@);
}

/// Reads the little-endian 16-bit value at `data[i..i + 2]`.
pub fn read_u16(data: &[u8], i: usize) -> (r: u16)
    requires
        i + 2 <= data@.len(),
    ensures
        r == u16_at(data@, i as int),
{
    data[i] as u16 + 256 * (data[i + 1] as u16)
}

/// Reads the little-endian 32-bit value at `data[i..i + 4]`.
pub fn read_u32(data: &[u8], i: usize) -> (r: u32)
    requires
        i + 4 <= data@.len(),
    ensures
        r == u32_at(data@, i as int),
{
    data[i] as u32 + 256 * (data[i + 1] as u32) + 65536 * (data[i + 2] as u32) + 16777216 * (
    data[i + 3] as u32)
}

/// Appends the little-endian bytes of `v`.
pub fn push_u16(out: &mut Vec<u8>, v: u16)
    ensures
        final(out)@ == old(out)@ + u16_bytes(v),
{
    out.push((v % 256) as u8);
    out.push((v / 256) as u8);
    assert(final(out)@ =~= old(out)@ + u16_bytes(v));
}

/// Appends the little-endian bytes of `v`.
pub fn push_u32(out: &mut Vec<u8>, v: u32)
    ensures
        final(out)@ == old(out)@ + u32_bytes(v),
{
    out.push((v % 256) as u8);
    out.push(((v / 256) % 256) as u8);
    out.push(((v / 65536) % 256) as u8);
    out.push((v / 16777216) as u8);
    assert(final(out)@ =~= old(out)@ + u32_bytes(v));
}

} // verus!
