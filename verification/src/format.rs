//! The IVF index and its binary file format (little-endian throughout):
//!
//! ```text
//! magic "IVFVEC02" | version u8 | n_vectors u32 | n_dims u16 | n_clusters u32
//! | nprobe u16 | quant_scale f32 | n_blocks u32
//! | centroids f32 × (n_dims · n_clusters) | offsets u32 × (n_clusters + 1)
//! | labels u8 × (n_blocks · BLOCK_SIZE) | blocks i16 × (n_blocks · BLOCK_ELEMS)
//! ```
//!
//! Floating-point values are held by their IEEE-754 bit patterns.
use crate::aligned::{
    i16_as_slice, i16_capacity, i16_items, i16_push, i16_with_capacity, u32_as_slice, u32_capacity, u32_items, u32_push,
    u32_with_capacity, Aligned32,
};
use crate::bytes_le::{
    lemma_i16s_at_encoding, lemma_u16_round_trip, lemma_u32_round_trip, lemma_u32s_at_encoding,
    i16_seq_bytes, i16s_at, push_bytes, push_i16_seq, push_u16, push_u32, push_u32_seq, read_u16, read_u32, u16_at, u16_bytes, u32_at,
    u32_bytes, u32_seq_bytes, u32s_at,
};
use vstd::prelude::*;
use vstd::slice::slice_to_vec;

verus! {

/// The version byte this reader and writer use.
pub const VERSION: u8 = 2;

/// Real dimensions of a stored vector.
pub const N_DIMS: usize = 14;

/// Vectors per block.
pub const BLOCK_SIZE: usize = 8;

/// Quantized values per block (`N_DIMS * BLOCK_SIZE`).
pub const BLOCK_ELEMS: usize = 112;

/// Bit pattern of the quantization scale `10000.0f32`.
pub const QUANT_SCALE_BITS: u32 = 0x461c_4000;

/// Length of the fixed header.
pub const HEADER_LEN: usize = 29;

/// The eight magic bytes `"IVFVEC02"`.
pub open spec fn magic() -> Seq<u8> {
    seq![73u8, 86u8, 70u8, 86u8, 69u8, 67u8, 48u8, 50u8]
}

/// The eight magic bytes `"IVFVEC02"`.
pub fn magic_bytes() -> (r: [u8; 8])
    ensures
        r@ == magic(),
{
    let r: [u8; 8] = [73, 86, 70, 86, 69, 67, 48, 50];
    assert(r@ =~= magic());
    r
}

/// Why a byte buffer is not an index file.
#[derive(Debug, Clone, Copy, PartialEq, Eq, Structural)]
pub enum FormatError {
    /// Shorter than the fixed header.
    FileTooShort,
    /// The first eight bytes are not the magic.
    BadMagic,
    /// The version byte is not `VERSION`; it carries the byte found.
    UnsupportedVersion(u8),
    /// The centroid section runs past the end.
    TruncatedF32Section,
    /// The offset section runs past the end.
    TruncatedU32Section,
    /// The block section runs past the end.
    TruncatedI16Section,
}

/// The mathematical content of an index.
pub struct IndexModel {
    pub n_vectors: u32,
    pub n_dims: u16,
    pub n_clusters: u32,
    pub quant_scale_bits: u32,
    pub nprobe: u16,
    /// Dimension-major: `centroids[d * n_clusters + c]`.
    pub centroids: Seq<u32>,
    /// Block offsets, CSR style: cluster `c` owns blocks `offsets[c]..offsets[c + 1]`.
    pub offsets: Seq<u32>,
    pub labels: Seq<u8>,
    /// `blocks[b * BLOCK_ELEMS + d * BLOCK_SIZE + slot]`.
    pub blocks: Seq<i16>,
}

/// An inverted-file index of quantized reference vectors.
pub struct IvfIndex {
    pub n_vectors: u32,
    pub n_dims: u16,
    pub n_clusters: u32,
    /// Bit pattern of the `f32` quantization scale.
    pub quant_scale_bits: u32,
    pub nprobe: u16,
    /// Bit patterns of the `f32` centroid coordinates, dimension-major.
    pub centroids: Aligned32<u32>,
    pub offsets: Vec<u32>,
    pub labels: Vec<u8>,
    pub blocks: Aligned32<i16>,
}

impl View for IvfIndex {
    type V = IndexModel;

    open spec fn view(&self) -> IndexModel {
        IndexModel {
            n_vectors: self.n_vectors,
            n_dims: self.n_dims,
            n_clusters: self.n_clusters,
            quant_scale_bits: self.quant_scale_bits,
            nprobe: self.nprobe,
            centroids: u32_items(self.centroids),
            offsets: self.offsets@,
            labels: self.labels@,
            blocks: i16_items(self.blocks),
        }
    }
}

// ---------------------------------------------------------------- layout

/// Number of centroid values the header announces.
pub open spec fn centroid_count(data: Seq<u8>) -> int {
    u16_at(data, 13) * u32_at(data, 15)
}

/// Number of blocks the header announces.
pub open spec fn block_count(data: Seq<u8>) -> int {
    u32_at(data, 25) as int
}

pub open spec fn centroids_end(data: Seq<u8>) -> int {
    HEADER_LEN + 4 * centroid_count(data)
}

pub open spec fn offsets_end(data: Seq<u8>) -> int {
    centroids_end(data) + 4 * (u32_at(data, 15) + 1)
}

pub open spec fn labels_end(data: Seq<u8>) -> int {
    offsets_end(data) + BLOCK_SIZE * block_count(data)
}

pub open spec fn blocks_end(data: Seq<u8>) -> int {
    labels_end(data) + 2 * (BLOCK_ELEMS * block_count(data))
}

/// The header is complete, carries the magic and the supported version.
pub open spec fn header_ok(data: Seq<u8>) -> bool {
    &&& data.len() >= HEADER_LEN
    &&& data.subrange(0, 8) == magic()
    &&& data[8] == VERSION
}

/// Reading `data` does not panic: once the centroid and offset sections are
/// known to fit, the label section (which is sliced without a check) fits too.
pub open spec fn from_bytes_defined(data: Seq<u8>) -> bool {
    header_ok(data) && centroids_end(data) <= data.len() && offsets_end(data) <= data.len()
        ==> labels_end(data) <= data.len()
}

/// The index that `data` holds, or why it holds none.
pub open spec fn spec_from_bytes(data: Seq<u8>) -> Result<IndexModel, FormatError> {
    if data.len() < HEADER_LEN {
        Err(FormatError::FileTooShort)
    } else if data.subrange(0, 8) != magic() {
        Err(FormatError::BadMagic)
    } else if data[8] != VERSION {
        Err(FormatError::UnsupportedVersion(data[8]))
    } else if centroids_end(data) > data.len() {
        Err(FormatError::TruncatedF32Section)
    } else if offsets_end(data) > data.len() {
        Err(FormatError::TruncatedU32Section)
    } else if blocks_end(data) > data.len() {
        Err(FormatError::TruncatedI16Section)
    } else {
        Ok(
            IndexModel {
                n_vectors: u32_at(data, 9),
                n_dims: u16_at(data, 13),
                n_clusters: u32_at(data, 15),
                quant_scale_bits: u32_at(data, 21),
                nprobe: u16_at(data, 19),
                centroids: u32s_at(data, HEADER_LEN as int, centroid_count(data) as nat),
                offsets: u32s_at(data, centroids_end(data), (u32_at(data, 15) + 1) as nat),
                labels: data.subrange(offsets_end(data), labels_end(data)),
                blocks: i16s_at(data, labels_end(data), (BLOCK_ELEMS * block_count(data)) as nat),
            },
        )
    }
}

/// The index can be written: the offset table has an entry for `n_clusters`.
pub open spec fn writable(m: IndexModel) -> bool {
    m.offsets.len() > m.n_clusters
}

/// Every section has the length the header announces.
pub open spec fn well_formed(m: IndexModel) -> bool {
    &&& m.centroids.len() == m.n_dims * m.n_clusters
    &&& m.offsets.len() == m.n_clusters + 1
    &&& m.labels.len() == BLOCK_SIZE * m.offsets[m.n_clusters as int]
    &&& m.blocks.len() == BLOCK_ELEMS * m.offsets[m.n_clusters as int]
}

/// The 29 header bytes written for `m`.
pub open spec fn spec_header_bytes(m: IndexModel) -> Seq<u8> {
    magic() + seq![VERSION] + u32_bytes(m.n_vectors) + u16_bytes(m.n_dims) + u32_bytes(
        m.n_clusters,
    ) + u16_bytes(m.nprobe) + u32_bytes(m.quant_scale_bits) + u32_bytes(
        m.offsets[m.n_clusters as int],
    )
}

/// Length of the bytes written for `m`: the header and every section.
pub open spec fn written_len(m: IndexModel) -> int {
    HEADER_LEN + 4 * m.centroids.len() + 4 * m.offsets.len() + m.labels.len() + 2 * m.blocks.len()
}

/// The bytes written for `m`.
pub open spec fn spec_to_bytes(m: IndexModel) -> Seq<u8> {
    spec_header_bytes(m) + u32_seq_bytes(m.centroids) + u32_seq_bytes(m.offsets) + m.labels
        + i16_seq_bytes(m.blocks)
}

// ---------------------------------------------------------------- reading

/// Reads `count` little-endian `f32` bit patterns at `*pos` into an aligned
/// vector and advances `*pos` past them.
fn read_f32_avec(data: &[u8], pos: &mut usize, count: usize) -> (r: Result<
    Aligned32<u32>,
    FormatError,
>)
    requires
        *old(pos) <= data@.len() <= isize::MAX,
    ensures
        *old(pos) + 4 * count > data@.len() ==> r == Err::<Aligned32<u32>, FormatError>(
            FormatError::TruncatedF32Section,
        ) && *final(pos) == *old(pos),
        *old(pos) + 4 * count <= data@.len() ==> r is Ok && u32_items(r->Ok_0) == u32s_at(
            data@,
            *old(pos) as int,
            count as nat,
        ) && *final(pos) == *old(pos) + 4 * count,
{
    if count > (data.len() - *pos) / 4 {
        return Err(FormatError::TruncatedF32Section);
    }
    let start = *pos;
    let mut v = u32_with_capacity(count);
    let mut i: usize = 0;
    while i < count
        invariant
            i <= count,
            start + 4 * count <= data.len(),
            u32_capacity(v) == count,
            u32_items(v) == u32s_at(data@, start as int, i as nat),
        decreases count - i,
    {
        let x = read_u32(data, start + i * 4);
        u32_push(&mut v, x);
        i += 1;
        assert(u32_items(v) =~= u32s_at(data@, start as int, i as nat));
    }
    *pos = start + count * 4;
    Ok(v)
}

/// Reads `count` little-endian `i16` values at `*pos` into an aligned vector
/// and advances `*pos` past them.
fn read_i16_avec(data: &[u8], pos: &mut usize, count: usize) -> (r: Result<
    Aligned32<i16>,
    FormatError,
>)
    requires
        *old(pos) <= data@.len() <= isize::MAX,
    ensures
        *old(pos) + 2 * count > data@.len() ==> r == Err::<Aligned32<i16>, FormatError>(
            FormatError::TruncatedI16Section,
        ) && *final(pos) == *old(pos),
        *old(pos) + 2 * count <= data@.len() ==> r is Ok && i16_items(r->Ok_0) == i16s_at(
            data@,
            *old(pos) as int,
            count as nat,
        ) && *final(pos) == *old(pos) + 2 * count,
{
    if count > (data.len() - *pos) / 2 {
        return Err(FormatError::TruncatedI16Section);
    }
    let start = *pos;
    let mut v = i16_with_capacity(count);
    let mut i: usize = 0;
    while i < count
        invariant
            i <= count,
            start + 2 * count <= data.len(),
            i16_capacity(v) == count,
            i16_items(v) == i16s_at(data@, start as int, i as nat),
        decreases count - i,
    {
        let x = read_u16(data, start + i * 2) as i16;
        i16_push(&mut v, x);
        i += 1;
        assert(i16_items(v) =~= i16s_at(data@, start as int, i as nat));
    }
    *pos = start + count * 2;
    Ok(v)
}

/// Reads `count` little-endian `u32` values at `*pos` and advances `*pos`
/// past them.
pub fn read_u32_vec(data: &[u8], pos: &mut usize, count: usize) -> (r: Result<
    Vec<u32>,
    FormatError,
>)
    requires
        *old(pos) + 4 * count <= usize::MAX,
    ensures
        *old(pos) + 4 * count > data@.len() ==> r == Err::<Vec<u32>, FormatError>(
            FormatError::TruncatedU32Section,
        ) && *final(pos) == *old(pos),
        *old(pos) + 4 * count <= data@.len() ==> r is Ok && r->Ok_0@ == u32s_at(
            data@,
            *old(pos) as int,
            count as nat,
        ) && *final(pos) == *old(pos) + 4 * count,
{
    if *pos > data.len() || count > (data.len() - *pos) / 4 {
        return Err(FormatError::TruncatedU32Section);
    }
    let start = *pos;
    let mut v: Vec<u32> = Vec::new();
    let mut i: usize = 0;
    while i < count
        invariant
            i <= count,
            start + 4 * count <= data.len(),
            v@ == u32s_at(data@, start as int, i as nat),
        decreases count - i,
    {
        let x = read_u32(data, start + i * 4);
        v.push(x);
        i += 1;
        assert(v@ =~= u32s_at(data@, start as int, i as nat));
    }
    *pos = start + count * 4;
    Ok(v)
}

/// Whether the first eight bytes of `data` are the magic.
fn has_magic(data: &[u8]) -> (r: bool)
    requires
        data@.len() >= 8,
    ensures
        r == (data@.subrange(0, 8) == magic()),
{
    let m = magic_bytes();
    let mut i: usize = 0;
    while i < 8
        invariant
            i <= 8,
            data@.len() >= 8,
            m@ == magic(),
            forall|j: int| 0 <= j < i ==> data@[j] == magic()[j],
        decreases 8 - i,
    {
        if data[i] != m[i] {
            assert(data@.subrange(0, 8)[i as int] != magic()[i as int]);
            return false;
        }
        i += 1;
    }
    assert(data@.subrange(0, 8) =~= magic());
    true
}

/// Whether `IvfIndex::from_bytes` can be called on `data`: the label section,
/// which is sliced without a length check, does not run past the end.
pub fn from_bytes_is_defined(data: &[u8]) -> (r: bool)
    ensures
        r == from_bytes_defined(data@),
{
    if data.len() < HEADER_LEN || !has_magic(data) || data[8] != VERSION {
        return true;
    }
    let n_dims = read_u16(data, 13) as u64;
    let n_clusters = read_u32(data, 15) as u64;
    let n_blocks = read_u32(data, 25) as u64;
    let len = data.len() as u64;
    assert(n_dims * n_clusters <= 65535u64 * 4294967295u64) by (nonlinear_arith)
        requires
            n_dims <= 65535,
            n_clusters <= 4294967295u64,
    ;
    let centroids_end = 29 + 4 * (n_dims * n_clusters);
    let offsets_end = centroids_end + 4 * (n_clusters + 1);
    let labels_end = offsets_end + 8 * n_blocks;
    centroids_end > len || offsets_end > len || labels_end <= len
}

impl IvfIndex {
    /// Parses an index file.
    ///
    /// The label section is sliced without a length check, so `requires`
    /// leaves out the files whose label section runs past the end
    /// (`from_bytes_defined`; `from_bytes_is_defined` tests it). `data` is a slice, so its length is at most
    /// `isize::MAX`.
    pub fn from_bytes(data: &[u8]) -> (r: Result<IvfIndex, FormatError>)
        requires
            data@.len() <= isize::MAX,
            from_bytes_defined(data@),
        ensures
            spec_from_bytes(data@) == match r {
                Ok(idx) => Ok::<IndexModel, FormatError>(idx@),
                Err(e) => Err::<IndexModel, FormatError>(e),
            },
    {
        if data.len() < HEADER_LEN {
            return Err(FormatError::FileTooShort);
        }
        if !has_magic(data) {
            return Err(FormatError::BadMagic);
        }
        if data[8] != VERSION {
            return Err(FormatError::UnsupportedVersion(data[8]));
        }
        let n_vectors = read_u32(data, 9);
        let n_dims = read_u16(data, 13);
        let n_clusters = read_u32(data, 15);
        let nprobe = read_u16(data, 19);
        let quant_scale_bits = read_u32(data, 21);
        let n_blocks = read_u32(data, 25);
        let mut pos: usize = HEADER_LEN;

        // The product can exceed `usize` only where the section cannot fit.
        assert((n_dims as u64) * (n_clusters as u64) <= 65535u64 * 4294967295u64) by (nonlinear_arith)
            requires
                n_dims <= 65535,
                n_clusters <= 4294967295u32,
        ;
        let count = (n_dims as u64) * (n_clusters as u64);
        if count > ((data.len() - pos) / 4) as u64 {
            return Err(FormatError::TruncatedF32Section);
        }
        let centroids = match read_f32_avec(data, &mut pos, count as usize) {
            Ok(c) => c,
            Err(e) => return Err(e),
        };
        let k = n_clusters as usize;
        if k >= (data.len() - pos) / 4 {
            return Err(FormatError::TruncatedU32Section);
        }
        let offsets = match read_u32_vec(data, &mut pos, k + 1) {
            Ok(o) => o,
            Err(e) => return Err(e),
        };
        let padded_n = (n_blocks as usize) * BLOCK_SIZE;
        let labels = slice_to_vec(&data[pos..pos + padded_n]);
        pos = pos + padded_n;
        let n_elems = (n_blocks as u64) * (BLOCK_ELEMS as u64);
        if n_elems > ((data.len() - pos) / 2) as u64 {
            return Err(FormatError::TruncatedI16Section);
        }
        let blocks = match read_i16_avec(data, &mut pos, n_elems as usize) {
            Ok(b) => b,
            Err(e) => return Err(e),
        };
        Ok(
            IvfIndex {
                n_vectors,
                n_dims,
                n_clusters,
                quant_scale_bits,
                nprobe,
                centroids,
                offsets,
                labels,
                blocks,
            },
        )
    }
}

/// A 32-byte aligned copy of `s`.
fn aligned_u32_copy(s: &[u32]) -> (r: Aligned32<u32>)
    requires
        s@.len() * 4 <= isize::MAX,
    ensures
        u32_items(r) == s@,
{
    let mut v = u32_with_capacity(s.len());
    let mut i: usize = 0;
    while i < s.len()
        invariant
            i <= s@.len(),
            u32_capacity(v) == s@.len(),
            u32_items(v) == s@.subrange(0, i as int),
        decreases s@.len() - i,
    {
        u32_push(&mut v, s[i]);
        i += 1;
        assert(u32_items(v) =~= s@.subrange(0, i as int));
    }
    assert(s@.subrange(0, s@.len() as int) =~= s@);
    v
}

/// A 32-byte aligned copy of `s`.
fn aligned_i16_copy(s: &[i16]) -> (r: Aligned32<i16>)
    requires
        s@.len() * 2 <= isize::MAX,
    ensures
        i16_items(r) == s@,
{
    let mut v = i16_with_capacity(s.len());
    let mut i: usize = 0;
    while i < s.len()
        invariant
            i <= s@.len(),
            i16_capacity(v) == s@.len(),
            i16_items(v) == s@.subrange(0, i as int),
        decreases s@.len() - i,
    {
        i16_push(&mut v, s[i]);
        i += 1;
        assert(i16_items(v) =~= s@.subrange(0, i as int));
    }
    assert(s@.subrange(0, s@.len() as int) =~= s@);
    v
}

// ---------------------------------------------------------------- writing

impl IvfIndex {
    /// The bytes of the index file for `self`; `n_blocks` in the header is
    /// `offsets[n_clusters]`, which must exist.
    pub fn to_bytes(&self) -> (r: Vec<u8>)
        requires
            writable(self@),
        ensures
            r@ == spec_to_bytes(self@),
            r@.len() == written_len(self@),
    {
        proof {
            lemma_written_len(self@);
        }
        let k = self.n_clusters as usize;
        let n_blocks = self.offsets[k];
        let mut out: Vec<u8> = Vec::new();
        let m = magic_bytes();
        push_bytes(&mut out, &m);
        out.push(VERSION);
        push_u32(&mut out, self.n_vectors);
        push_u16(&mut out, self.n_dims);
        push_u32(&mut out, self.n_clusters);
        push_u16(&mut out, self.nprobe);
        push_u32(&mut out, self.quant_scale_bits);
        push_u32(&mut out, n_blocks);
        assert(out@ =~= spec_header_bytes(self@));
        push_u32_seq(&mut out, u32_as_slice(&self.centroids));
        push_u32_seq(&mut out, self.offsets.as_slice());
        push_bytes(&mut out, self.labels.as_slice());
        push_i16_seq(&mut out, i16_as_slice(&self.blocks));
        out
    }

    /// An index made of the given header fields and sections, stored as
    /// they are (the centroids and blocks in 32-byte aligned vectors).
    pub fn from_parts(
        n_vectors: u32,
        n_dims: u16,
        n_clusters: u32,
        quant_scale_bits: u32,
        nprobe: u16,
        centroids: &[u32],
        offsets: Vec<u32>,
        labels: Vec<u8>,
        blocks: &[i16],
    ) -> (r: IvfIndex)
        requires
            centroids@.len() * 4 <= isize::MAX,
            blocks@.len() * 2 <= isize::MAX,
        ensures
            r@ == (IndexModel {
                n_vectors,
                n_dims,
                n_clusters,
                quant_scale_bits,
                nprobe,
                centroids: centroids@,
                offsets: offsets@,
                labels: labels@,
                blocks: blocks@,
            }),
    {
        let c = aligned_u32_copy(centroids);
        let b = aligned_i16_copy(blocks);
        IvfIndex {
            n_vectors,
            n_dims,
            n_clusters,
            quant_scale_bits,
            nprobe,
            centroids: c,
            offsets,
            labels,
            blocks: b,
        }
    }

    /// All centroid coordinates (as `f32` bit patterns), dimension-major.
    pub fn centroid_bits(&self) -> (r: &[u32])
        ensures
            r@ == self@.centroids,
    {
        u32_as_slice(&self.centroids)
    }

    /// All quantized block values, block by block.
    pub fn block_values(&self) -> (r: &[i16])
        ensures
            r@ == self@.blocks,
    {
        i16_as_slice(&self.blocks)
    }

    /// `(first block, number of blocks)` of cluster `cid`.
    pub fn cluster_blocks(&self, cid: usize) -> (r: (usize, usize))
        requires
            cid + 1 < self.offsets.len(),
            self.offsets@[cid as int] <= self.offsets@[cid + 1],
        ensures
            r.0 == self.offsets@[cid as int],
            r.1 == self.offsets@[cid + 1] - self.offsets@[cid as int],
    {
        let start = self.offsets[cid] as usize;
        let end = self.offsets[cid + 1] as usize;
        (start, end - start)
    }

    /// The `n_clusters` centroid coordinates (as `f32` bit patterns) of
    /// dimension `d`.
    pub fn centroid_dim(&self, d: usize) -> (r: &[u32])
        requires
            d < usize::MAX,
            (d + 1) * self.n_clusters <= u32_items(self.centroids).len(),
        ensures
            r@ == u32_items(self.centroids).subrange(
                d * self.n_clusters,
                (d + 1) * self.n_clusters,
            ),
    {
        let k = self.n_clusters as usize;
        let all = u32_as_slice(&self.centroids);
        let n = all.len();
        proof {
            assert(d * k <= (d + 1) * k) by (nonlinear_arith);
            assert((d + 1) * k == d * k + k) by (nonlinear_arith);
        }
        &all[d * k..(d + 1) * k]
    }
}

/// The header of `m` is 29 bytes long and every field reads back from a
/// buffer that starts with it.
proof fn lemma_header_fields(m: IndexModel, d: Seq<u8>)
    requires
        writable(m),
        d.len() >= HEADER_LEN,
        d.subrange(0, HEADER_LEN as int) == spec_header_bytes(m),
    ensures
        d.subrange(0, 8) == magic(),
        d[8] == VERSION,
        u32_at(d, 9) == m.n_vectors,
        u16_at(d, 13) == m.n_dims,
        u32_at(d, 15) == m.n_clusters,
        u16_at(d, 19) == m.nprobe,
        u32_at(d, 21) == m.quant_scale_bits,
        u32_at(d, 25) == m.offsets[m.n_clusters as int],
{
    lemma_u32_round_trip(m.n_vectors);
    lemma_u16_round_trip(m.n_dims);
    lemma_u32_round_trip(m.n_clusters);
    lemma_u16_round_trip(m.nprobe);
    lemma_u32_round_trip(m.quant_scale_bits);
    lemma_u32_round_trip(m.offsets[m.n_clusters as int]);
    let h = spec_header_bytes(m);
    let a = u32_bytes(m.n_vectors);
    let b = u16_bytes(m.n_dims);
    let c = u32_bytes(m.n_clusters);
    let e = u16_bytes(m.nprobe);
    let f = u32_bytes(m.quant_scale_bits);
    let g = u32_bytes(m.offsets[m.n_clusters as int]);
    assert(h =~= seq![
        73u8, 86u8, 70u8, 86u8, 69u8, 67u8, 48u8, 50u8, VERSION,
        a[0], a[1], a[2], a[3], b[0], b[1], c[0], c[1], c[2], c[3], e[0], e[1],
        f[0], f[1], f[2], f[3], g[0], g[1], g[2], g[3]
    ]);
    assert forall|i: int| 0 <= i < 29 implies d[i] == h[i] by {
        assert(d.subrange(0, 29)[i] == d[i]);
    }
    assert(d.subrange(0, 8) =~= magic());
    assert(u32_at(d, 9) == u32_at(a, 0));
    assert(u16_at(d, 13) == u16_at(b, 0));
    assert(u32_at(d, 15) == u32_at(c, 0));
    assert(u16_at(d, 19) == u16_at(e, 0));
    assert(u32_at(d, 21) == u32_at(f, 0));
    assert(u32_at(d, 25) == u32_at(g, 0));
}

/// The written bytes are as long as `written_len` says.
pub proof fn lemma_written_len(m: IndexModel)
    ensures
        spec_header_bytes(m).len() == HEADER_LEN,
        spec_to_bytes(m).len() == written_len(m),
{
    lemma_u32_round_trip(m.n_vectors);
    lemma_u16_round_trip(m.n_dims);
    lemma_u32_round_trip(m.n_clusters);
    lemma_u16_round_trip(m.nprobe);
    lemma_u32_round_trip(m.quant_scale_bits);
    lemma_u32_round_trip(m.offsets[m.n_clusters as int]);
}

/// The written header is the file header: the magic, the version byte, then
/// `n_vectors`, `n_dims`, `n_clusters`, `nprobe`, the scale's bits and the
/// block count `offsets[n_clusters]`, each little-endian at its offset; the
/// centroids start at byte 29.
pub proof fn lemma_header_layout(m: IndexModel)
    requires
        writable(m),
    ensures
        ({
            let d = spec_to_bytes(m);
            &&& d.len() >= HEADER_LEN
            &&& d.subrange(0, 8) == magic()
            &&& d[8] == VERSION
            &&& u32_at(d, 9) == m.n_vectors
            &&& u16_at(d, 13) == m.n_dims
            &&& u32_at(d, 15) == m.n_clusters
            &&& u16_at(d, 19) == m.nprobe
            &&& u32_at(d, 21) == m.quant_scale_bits
            &&& u32_at(d, 25) == m.offsets[m.n_clusters as int]
            &&& d.subrange(HEADER_LEN as int, HEADER_LEN + 4 * m.centroids.len()) == u32_seq_bytes(
                m.centroids,
            )
        }),
{
    lemma_written_len(m);
    let d = spec_to_bytes(m);
    let h = spec_header_bytes(m);
    let cb = u32_seq_bytes(m.centroids);
    let rest = u32_seq_bytes(m.offsets) + m.labels + i16_seq_bytes(m.blocks);
    assert(d =~= h + cb + rest);
    assert(d.subrange(0, HEADER_LEN as int) =~= h);
    assert(d.subrange(HEADER_LEN as int, HEADER_LEN + 4 * m.centroids.len()) =~= cb);
    lemma_header_fields(m, d);
}

/// Reading back what was written for a well-formed index gives the index:
/// `from_bytes(to_bytes(m)) == Ok(m)`, and the read does not panic. The
/// bytes are `written_len(m)` long, which a caller of `from_bytes` holds to
/// the limit of a slice.
#[verifier::spinoff_prover]
pub proof fn lemma_round_trip(m: IndexModel)
    requires
        well_formed(m),
    ensures
        spec_to_bytes(m).len() == written_len(m),
        from_bytes_defined(spec_to_bytes(m)),
        spec_from_bytes(spec_to_bytes(m)) == Ok::<IndexModel, FormatError>(m),
{
    lemma_written_len(m);
    let h = spec_header_bytes(m);
    let cb = u32_seq_bytes(m.centroids);
    let ob = u32_seq_bytes(m.offsets);
    let bb = i16_seq_bytes(m.blocks);
    let a1 = h + cb;
    let a2 = a1 + ob;
    let a3 = a2 + m.labels;
    let d = a3 + bb;
    assert(d == spec_to_bytes(m));
    lemma_u32_round_trip(0);
    assert(h.len() == 29) by {
        lemma_u16_round_trip(0);
    }
    let p1 = h.len() as int;
    let p2 = p1 + cb.len();
    let p3 = p2 + ob.len();
    let p4 = p3 + m.labels.len();
    assert(d.subrange(0, p1) =~= h);
    assert(d.subrange(p1, p2) =~= cb);
    assert(d.subrange(p2, p3) =~= ob);
    assert(d.subrange(p3, p4) =~= m.labels);
    assert(d.subrange(p4, d.len() as int) =~= bb);
    lemma_header_fields(m, d);
    lemma_u32s_at_encoding(d, p1, m.centroids);
    lemma_u32s_at_encoding(d, p2, m.offsets);
    lemma_i16s_at_encoding(d, p4, m.blocks);
    assert(centroid_count(d) == m.centroids.len());
    assert(centroids_end(d) == p2);
    assert(offsets_end(d) == p3);
    assert(labels_end(d) == p4);
    assert(blocks_end(d) == d.len());
}

} // verus!
