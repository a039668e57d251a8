//! The icon embedding index and its binary file format.
//!
//! Layout (all integers little-endian): the magic `MCL2`; `u32` version; `u32`
//! dimension; `u32` count; `count` names, each a `u16` byte length and that many
//! UTF-8 bytes; then, for version 2, `count` scales (`f32`) followed by
//! `count * dim` int8 codes, or, for version 1, `count * dim` `f32` values.
//! Floating-point values are carried as their bit patterns (`u32`).
use vstd::prelude::*;
use vstd::utf8::{
    decode_utf8, encode_utf8, encode_utf8_decode_utf8, encode_utf8_valid_utf8, valid_utf8,
};

verus! {

/// The dimension of every icon embedding.
pub const EMBED_DIM: u32 = 512;

/// Version of a file that stores plain `f32` vectors.
pub const INDEX_VERSION_F32: u32 = 1;

/// Version of a file that stores int8 codes and one `f32` scale per vector.
pub const INDEX_VERSION_I8: u32 = 2;

/// Why bytes could not be read as an embedding index, or an index could not be
/// written.
#[derive(Debug, Clone, Copy, PartialEq, Eq, Structural)]
pub enum IndexError {
    /// The bytes end before the structure they announce.
    Truncated,
    /// The first four bytes are not `MCL2`.
    BadMagic,
    /// The stored dimension is not `EMBED_DIM`.
    WrongDim(u32),
    /// A name's bytes are not UTF-8.
    BadName,
    /// The version is neither 1 nor 2.
    UnsupportedVersion(u32),
    /// The name at this position is longer than 65535 bytes.
    NameTooLong(usize),
}

/// Byte `k` (0 = least significant) of `v`.
pub open spec fn byte_of(v: u32, k: int) -> u8 {
    if k == 0 {
        (v % 256) as u8
    } else if k == 1 {
        ((v / 256) % 256) as u8
    } else if k == 2 {
        ((v / 65536) % 256) as u8
    } else {
        (v / 16777216) as u8
    }
}

/// The four little-endian bytes of `v`.
pub open spec fn u32_le(v: u32) -> Seq<u8> {
    seq![byte_of(v, 0), byte_of(v, 1), byte_of(v, 2), byte_of(v, 3)]
}

/// The two little-endian bytes of `v`.
pub open spec fn u16_le(v: u16) -> Seq<u8> {
    seq![(v % 256) as u8, (v / 256) as u8]
}

/// The little-endian `u16` at `at`.
pub open spec fn le16(b: Seq<u8>, at: int) -> int {
    b[at] + 256 * b[at + 1]
}

/// The little-endian `u32` at `at`.
pub open spec fn le32(b: Seq<u8>, at: int) -> int {
    b[at] + 256 * b[at + 1] + 65536 * b[at + 2] + 16777216 * b[at + 3]
}

/// Reading back the four bytes written for a `u32` gives it.
pub proof fn lemma_u32_le_roundtrip(v: u32)
    ensures
        le32(u32_le(v), 0) == v,
{
    assert(v % 256 + 256 * ((v / 256) % 256) + 65536 * ((v / 65536) % 256) + 16777216 * (v
        / 16777216) == v) by (bit_vector);
    assert(v / 16777216 < 256) by (bit_vector);
}

/// Reading back the two bytes written for a `u16` gives it.
pub proof fn lemma_u16_le_roundtrip(v: u16)
    ensures
        le16(u16_le(v), 0) == v,
{
    assert(v % 256 + 256 * (v / 256) == v) by (bit_vector);
    assert(v / 256 < 256) by (bit_vector);
}

/// Reads the little-endian `u16` at `pos`.
pub fn read_u16(bytes: &Vec<u8>, pos: usize) -> (r: Result<u16, IndexError>)
    ensures
        pos + 2 <= bytes@.len() ==> r == Ok::<u16, IndexError>(le16(bytes@, pos as int) as u16),
        pos + 2 > bytes@.len() ==> r == Err::<u16, IndexError>(IndexError::Truncated),
{
    if pos > bytes.len() || bytes.len() - pos < 2 {
        return Err(IndexError::Truncated);
    }
    Ok(bytes[pos] as u16 + (bytes[pos + 1] as u16) * 256)
}

/// Reads the little-endian `u32` at `pos`.
pub fn read_u32(bytes: &Vec<u8>, pos: usize) -> (r: Result<u32, IndexError>)
    ensures
        pos + 4 <= bytes@.len() ==> r == Ok::<u32, IndexError>(le32(bytes@, pos as int) as u32),
        pos + 4 > bytes@.len() ==> r == Err::<u32, IndexError>(IndexError::Truncated),
{
    if pos > bytes.len() || bytes.len() - pos < 4 {
        return Err(IndexError::Truncated);
    }
    Ok(bytes[pos] as u32 + (bytes[pos + 1] as u32) * 256 + (bytes[pos + 2] as u32) * 65536 + (
    bytes[pos + 3] as u32) * 16777216)
}

/// Appends the two little-endian bytes of `value`.
pub fn write_u16(out: &mut Vec<u8>, value: u16)
    ensures
        final(out)@ == old(out)@ + u16_le(value),
{
    out.push((value % 256) as u8);
    out.push((value / 256) as u8);
}

/// Appends the four little-endian bytes of `value`.
pub fn write_u32(out: &mut Vec<u8>, value: u32)
    ensures
        final(out)@ == old(out)@ + u32_le(value),
{
    out.push((value % 256) as u8);
    out.push(((value / 256) % 256) as u8);
    out.push(((value / 65536) % 256) as u8);
    out.push((value / 16777216) as u8);
}


/// Decodes `bytes` as UTF-8.
#[verifier::external_body]
fn string_from_utf8(bytes: Vec<u8>) -> (r: Option<String>)
    ensures
        match r {
            Some(s) => valid_utf8(bytes@) && s@ == decode_utf8(bytes@),
            None => !valid_utf8(bytes@),
        },
{
    match String::from_utf8(bytes) {
        Ok(s) => Some(s),
        Err(_) => None,
    }
}

/// Names, from `pos` on, of `count` entries (`u16` length, UTF-8 bytes); with the
/// position after the last one.
pub open spec fn parse_names(b: Seq<u8>, pos: int, count: nat) -> Result<
    (Seq<Seq<char>>, int),
    IndexError,
>
    decreases count,
{
    if count == 0 {
        Ok((Seq::empty(), pos))
    } else if pos + 2 > b.len() {
        Err(IndexError::Truncated)
    } else {
        let l = le16(b, pos);
        if pos + 2 + l > b.len() {
            Err(IndexError::Truncated)
        } else {
            let nb = b.subrange(pos + 2, pos + 2 + l);
            if !valid_utf8(nb) {
                Err(IndexError::BadName)
            } else {
                match parse_names(b, pos + 2 + l, (count - 1) as nat) {
                    Ok(rest) => Ok((seq![decode_utf8(nb)] + rest.0, rest.1)),
                    Err(e) => Err(e),
                }
            }
        }
    }
}

pub open spec fn prepend_names(
    acc: Seq<Seq<char>>,
    r: Result<(Seq<Seq<char>>, int), IndexError>,
) -> Result<(Seq<Seq<char>>, int), IndexError> {
    match r {
        Ok(rest) => Ok((acc + rest.0, rest.1)),
        Err(e) => Err(e),
    }
}

pub open spec fn name_views(names: Seq<String>) -> Seq<Seq<char>> {
    Seq::new(names.len(), |i: int| names[i]@)
}

fn copy_range(b: &Vec<u8>, start: usize, end: usize) -> (r: Vec<u8>)
    requires
        start <= end <= b@.len(),
    ensures
        r@ == b@.subrange(start as int, end as int),
{
    let mut r: Vec<u8> = Vec::new();
    let mut k: usize = start;
    while k < end
        invariant
            start <= k <= end <= b@.len(),
            r@ == b@.subrange(start as int, k as int),
        decreases end - k,
    {
        r.push(b[k]);
        assert(r@ =~= b@.subrange(start as int, k + 1));
        k = k + 1;
    }
    r
}

fn read_names(b: &Vec<u8>, start: usize, count: u32) -> (r: Result<(Vec<String>, usize), IndexError>)
    requires
        start <= b@.len(),
    ensures
        match (r, parse_names(b@, start as int, count as nat)) {
            (Ok(got), Ok(want)) => name_views(got.0@) == want.0 && got.1 == want.1 && got.1
                <= b@.len(),
            (Err(e), Err(f)) => e == f,
            _ => false,
        },
{
    let mut names: Vec<String> = Vec::new();
    let mut pos: usize = start;
    let mut i: u32 = 0;
    while i < count
        invariant
            start <= pos <= b@.len(),
            i <= count,
            parse_names(b@, start as int, count as nat) == prepend_names(
                name_views(names@),
                parse_names(b@, pos as int, (count - i) as nat),
            ),
        decreases count - i,
    {
        let ghost here = parse_names(b@, pos as int, (count - i) as nat);
        let len = match read_u16(b, pos) {
            Ok(v) => v,
            Err(e) => {
                return Err(e);
            },
        };
        if b.len() - (pos + 2) < len as usize {
            return Err(IndexError::Truncated);
        }
        let end = pos + 2 + len as usize;
        let nb = copy_range(b, pos + 2, end);
        let name = match string_from_utf8(nb) {
            Some(s) => s,
            None => {
                return Err(IndexError::BadName);
            },
        };
        let ghost before = names@;
        let ghost d = name@;
        let ghost next = parse_names(b@, end as int, (count - i - 1) as nat);
        assert(here == match next {
            Ok(rest) => Ok((seq![d] + rest.0, rest.1)),
            Err(e) => Err(e),
        });
        names.push(name);
        assert(name_views(names@) =~= name_views(before).push(d));
        proof {
            if next is Ok {
                let rest = next->Ok_0;
                assert(name_views(before) + (seq![d] + rest.0) =~= name_views(names@) + rest.0);
            }
        }
        pos = end;
        i = i + 1;
    }
    assert(name_views(names@) + Seq::<Seq<char>>::empty() =~= name_views(names@));
    Ok((names, pos))
}


/// Icon template embeddings: per name, `dim` int8 codes and one scale (the bit
/// pattern of an `f32`); vector `i` is `codes[i * dim .. (i + 1) * dim]` times
/// `scales[i] / 127`.
#[derive(Debug, Clone)]
pub struct EmbeddingIndex {
    pub dim: u32,
    pub names: Vec<String>,
    pub codes: Vec<i8>,
    pub scales: Vec<u32>,
}

/// What an index file holds.
pub enum ParsedIndex {
    /// A version 2 file: the index itself.
    Quantized(EmbeddingIndex),
    /// A version 1 file: the names and their `f32` vectors (bit patterns), one
    /// after the other, still to be quantized.
    Float { dim: u32, names: Vec<String>, vectors: Vec<u32> },
}

/// The mathematical content of an index.
#[verifier::ext_equal]
pub struct IndexContent {
    pub dim: u32,
    pub names: Seq<Seq<char>>,
    pub codes: Seq<i8>,
    pub scales: Seq<u32>,
}

/// The mathematical content of an index file.
#[verifier::ext_equal]
pub enum ParsedContent {
    Quantized(IndexContent),
    Float { dim: u32, names: Seq<Seq<char>>, vectors: Seq<u32> },
}

impl EmbeddingIndex {
    pub open spec fn content(&self) -> IndexContent {
        IndexContent {
            dim: self.dim,
            names: name_views(self.names@),
            codes: self.codes@,
            scales: self.scales@,
        }
    }

    /// Number of templates.
    pub fn count(&self) -> (n: usize)
        ensures
            n == self.names@.len(),
    {
        self.names.len()
    }
}

impl ParsedIndex {
    pub open spec fn content(&self) -> ParsedContent {
        match self {
            ParsedIndex::Quantized(ix) => ParsedContent::Quantized(ix.content()),
            ParsedIndex::Float { dim, names, vectors } => ParsedContent::Float {
                dim: *dim,
                names: name_views(names@),
                vectors: vectors@,
            },
        }
    }
}

/// `n` little-endian `u32` values from `at` on.
pub open spec fn le32_run(b: Seq<u8>, at: int, n: int) -> Seq<u32> {
    Seq::new(n as nat, |i: int| le32(b, at + 4 * i) as u32)
}

/// `n` bytes from `at` on, as int8 values.
pub open spec fn i8_run(b: Seq<u8>, at: int, n: int) -> Seq<i8> {
    Seq::new(n as nat, |i: int| b[at + i] as i8)
}

/// Reading an index file: header, names, then the vectors of its version.
pub open spec fn parse_index(b: Seq<u8>) -> Result<ParsedContent, IndexError> {
    if b.len() < 4 {
        Err(IndexError::Truncated)
    } else if !(b[0] == 77 && b[1] == 67 && b[2] == 76 && b[3] == 50) {
        Err(IndexError::BadMagic)
    } else if b.len() < 16 {
        Err(IndexError::Truncated)
    } else {
        let version = le32(b, 4);
        let dim = le32(b, 8);
        let count = le32(b, 12);
        if dim != EMBED_DIM {
            Err(IndexError::WrongDim(dim as u32))
        } else {
            match parse_names(b, 16, count as nat) {
                Err(e) => Err(e),
                Ok(parsed) => {
                    let (names, p) = parsed;
                    if version == INDEX_VERSION_F32 {
                        if p + 4 * count * EMBED_DIM > b.len() {
                            Err(IndexError::Truncated)
                        } else {
                            Ok(
                                ParsedContent::Float {
                                    dim: dim as u32,
                                    names,
                                    vectors: le32_run(b, p, count * EMBED_DIM),
                                },
                            )
                        }
                    } else if version == INDEX_VERSION_I8 {
                        if p + 4 * count + count * EMBED_DIM > b.len() {
                            Err(IndexError::Truncated)
                        } else {
                            Ok(
                                ParsedContent::Quantized(
                                    IndexContent {
                                        dim: dim as u32,
                                        names,
                                        scales: le32_run(b, p, count),
                                        codes: i8_run(b, p + 4 * count, count * EMBED_DIM),
                                    },
                                ),
                            )
                        }
                    } else {
                        Err(IndexError::UnsupportedVersion(version as u32))
                    }
                },
            }
        }
    }
}

fn read_u32_run(b: &Vec<u8>, at: usize, n: usize) -> (r: Vec<u32>)
    requires
        at + 4 * n <= b@.len(),
    ensures
        r@ == le32_run(b@, at as int, n as int),
{
    let total = b.len();
    let mut r: Vec<u32> = Vec::new();
    let mut i: usize = 0;
    while i < n
        invariant
            total == b@.len(),
            at + 4 * n <= b@.len(),
            i <= n,
            r@ == le32_run(b@, at as int, i as int),
        decreases n - i,
    {
        let v = match read_u32(b, at + 4 * i) {
            Ok(v) => v,
            Err(_) => 0,
        };
        r.push(v);
        assert(r@ =~= le32_run(b@, at as int, i + 1));
        i = i + 1;
    }
    r
}

fn read_i8_run(b: &Vec<u8>, at: usize, n: usize) -> (r: Vec<i8>)
    requires
        at + n <= b@.len(),
    ensures
        r@ == i8_run(b@, at as int, n as int),
{
    let total = b.len();
    let mut r: Vec<i8> = Vec::new();
    let mut i: usize = 0;
    while i < n
        invariant
            total == b@.len(),
            at + n <= b@.len(),
            i <= n,
            r@ == i8_run(b@, at as int, i as int),
        decreases n - i,
    {
        r.push(#[verifier::truncate] (b[at + i] as i8));
        assert(r@ =~= i8_run(b@, at as int, i + 1));
        i = i + 1;
    }
    r
}

impl EmbeddingIndex {
    /// Reads an index file's bytes. A version 1 file gives its float vectors, to be
    /// quantized by the caller; bytes after the last vector are ignored.
    pub fn from_bytes(b: &Vec<u8>) -> (r: Result<ParsedIndex, IndexError>)
        ensures
            match (r, parse_index(b@)) {
                (Ok(got), Ok(want)) => got.content() == want,
                (Err(e), Err(f)) => e == f,
                _ => false,
            },
    {
        if b.len() < 4 {
            return Err(IndexError::Truncated);
        }
        if !(b[0] == 77 && b[1] == 67 && b[2] == 76 && b[3] == 50) {
            return Err(IndexError::BadMagic);
        }
        if b.len() < 16 {
            return Err(IndexError::Truncated);
        }
        let version = match read_u32(b, 4) {
            Ok(v) => v,
            Err(e) => {
                return Err(e);
            },
        };
        let dim = match read_u32(b, 8) {
            Ok(v) => v,
            Err(e) => {
                return Err(e);
            },
        };
        let count = match read_u32(b, 12) {
            Ok(v) => v,
            Err(e) => {
                return Err(e);
            },
        };
        if dim != EMBED_DIM {
            return Err(IndexError::WrongDim(dim));
        }
        let (names, p) = match read_names(b, 16, count) {
            Ok(got) => got,
            Err(e) => {
                return Err(e);
            },
        };
        let avail: u64 = (b.len() - p) as u64;
        if version == INDEX_VERSION_F32 {
            if (count as u64) * 2048 > avail {
                return Err(IndexError::Truncated);
            }
            let vectors = read_u32_run(b, p, count as usize * 512);
            Ok(ParsedIndex::Float { dim, names, vectors })
        } else if version == INDEX_VERSION_I8 {
            if (count as u64) * 516 > avail {
                return Err(IndexError::Truncated);
            }
            let scales = read_u32_run(b, p, count as usize);
            let codes = read_i8_run(b, p + 4 * count as usize, count as usize * 512);
            Ok(ParsedIndex::Quantized(EmbeddingIndex { dim, names, codes, scales }))
        } else {
            Err(IndexError::UnsupportedVersion(version))
        }
    }
}


/// The first four bytes of every index file: `MCL2`.
pub open spec fn index_magic() -> Seq<u8> {
    seq![77u8, 67u8, 76u8, 50u8]
}

/// One name as stored: its UTF-8 byte length as a `u16`, then the bytes.
pub open spec fn name_entry(n: Seq<char>) -> Seq<u8> {
    u16_le(encode_utf8(n).len() as u16) + encode_utf8(n)
}

pub open spec fn names_bytes(ns: Seq<Seq<char>>) -> Seq<u8>
    decreases ns.len(),
{
    if ns.len() == 0 {
        Seq::empty()
    } else {
        name_entry(ns[0]) + names_bytes(ns.skip(1))
    }
}

/// Every name fits in 65535 UTF-8 bytes.
pub open spec fn names_fit(ns: Seq<Seq<char>>) -> bool {
    forall|i: int| 0 <= i < ns.len() ==> #[trigger] encode_utf8(ns[i]).len() <= 65535
}

/// Name `i` is the first one longer than 65535 UTF-8 bytes.
pub open spec fn first_long_name(ns: Seq<Seq<char>>, i: int) -> bool {
    &&& 0 <= i < ns.len()
    &&& encode_utf8(ns[i]).len() > 65535
    &&& forall|j: int| 0 <= j < i ==> #[trigger] encode_utf8(ns[j]).len() <= 65535
}

pub open spec fn u32_run_bytes(vs: Seq<u32>) -> Seq<u8>
    decreases vs.len(),
{
    if vs.len() == 0 {
        Seq::empty()
    } else {
        u32_run_bytes(vs.drop_last()) + u32_le(vs.last())
    }
}

pub open spec fn i8_run_bytes(cs: Seq<i8>) -> Seq<u8> {
    Seq::new(cs.len(), |k: int| cs[k] as u8)
}

/// The bytes of an index file (version 2) holding `c`.
pub open spec fn encode_index(c: IndexContent) -> Seq<u8> {
    index_magic() + u32_le(INDEX_VERSION_I8) + u32_le(c.dim) + u32_le(c.names.len() as u32)
        + names_bytes(c.names) + u32_run_bytes(c.scales) + i8_run_bytes(c.codes)
}

proof fn lemma_names_bytes_step(ns: Seq<Seq<char>>, i: int)
    requires
        0 <= i < ns.len(),
    ensures
        names_bytes(ns.take(i + 1)) == names_bytes(ns.take(i)) + name_entry(ns[i]),
    decreases i,
{
    if i == 0 {
        assert(ns.take(1).skip(1) =~= Seq::<Seq<char>>::empty());
        assert(names_bytes(ns.take(1).skip(1)) =~= Seq::<u8>::empty());
        assert(ns.take(1)[0] == ns[0]);
        assert(names_bytes(ns.take(1)) =~= name_entry(ns[0]));
        assert(names_bytes(ns.take(0)) =~= Seq::<u8>::empty());
    } else {
        lemma_names_bytes_step(ns.skip(1), i - 1);
        assert(ns.take(i + 1).skip(1) =~= ns.skip(1).take(i));
        assert(ns.take(i).skip(1) =~= ns.skip(1).take(i - 1));
        assert(ns.take(i + 1)[0] == ns[0]);
        assert(ns.take(i)[0] == ns[0]);
        assert(ns.skip(1)[i - 1] == ns[i]);
        assert(names_bytes(ns.take(i + 1)) =~= name_entry(ns[0]) + names_bytes(ns.skip(1).take(i)));
        assert(names_bytes(ns.take(i)) =~= name_entry(ns[0]) + names_bytes(ns.skip(1).take(i - 1)));
    }
}

fn append_bytes(out: &mut Vec<u8>, b: &[u8])
    ensures
        final(out)@ == old(out)@ + b@,
{
    let mut k: usize = 0;
    while k < b.len()
        invariant
            k <= b@.len(),
            out@ == old(out)@ + b@.take(k as int),
        decreases b@.len() - k,
    {
        out.push(b[k]);
        assert(b@.take(k + 1) =~= b@.take(k as int).push(b@[k as int]));
        k = k + 1;
    }
    assert(b@.take(b@.len() as int) =~= b@);
}

impl EmbeddingIndex {
    /// The bytes of a version 2 index file holding this index; fails on the first
    /// name longer than 65535 UTF-8 bytes.
    pub fn to_bytes(&self) -> (r: Result<Vec<u8>, IndexError>)
        ensures
            match r {
                Ok(b) => names_fit(self.content().names) && b@ == encode_index(self.content()),
                Err(e) => e matches IndexError::NameTooLong(i) && first_long_name(
                    self.content().names,
                    i as int,
                ),
            },
    {
        let ghost ns = self.content().names;
        let mut out: Vec<u8> = Vec::new();
        out.push(77);
        out.push(67);
        out.push(76);
        out.push(50);
        write_u32(&mut out, INDEX_VERSION_I8);
        write_u32(&mut out, self.dim);
        write_u32(&mut out, self.names.len() as u32);
        let ghost header = out@;
        assert(header =~= index_magic() + u32_le(INDEX_VERSION_I8) + u32_le(self.dim) + u32_le(
            self.names@.len() as u32,
        ));
        let n = self.names.len();
        let mut i: usize = 0;
        while i < n
            invariant
                n == self.names@.len(),
                ns == name_views(self.names@),
                i <= n,
                out@ == header + names_bytes(ns.take(i as int)),
                forall|j: int| 0 <= j < i ==> #[trigger] encode_utf8(ns[j]).len() <= 65535,
            decreases n - i,
        {
            let bytes = self.names[i].as_str().as_bytes();
            assert(bytes@ == encode_utf8(ns[i as int]));
            if bytes.len() > 65535 {
                return Err(IndexError::NameTooLong(i));
            }
            write_u16(&mut out, bytes.len() as u16);
            append_bytes(&mut out, bytes);
            proof {
                lemma_names_bytes_step(ns, i as int);
            }
            assert(out@ =~= header + names_bytes(ns.take(i + 1)));
            i = i + 1;
        }
        assert(ns.take(n as int) =~= ns);
        let ghost mid = out@;
        let m = self.scales.len();
        let mut k: usize = 0;
        while k < m
            invariant
                m == self.scales@.len(),
                k <= m,
                out@ == mid + u32_run_bytes(self.scales@.take(k as int)),
            decreases m - k,
        {
            write_u32(&mut out, self.scales[k]);
            assert(self.scales@.take(k + 1).drop_last() =~= self.scales@.take(k as int));
            assert(out@ =~= mid + u32_run_bytes(self.scales@.take(k + 1)));
            k = k + 1;
        }
        assert(self.scales@.take(m as int) =~= self.scales@);
        let ghost mid2 = out@;
        let c = self.codes.len();
        let mut k: usize = 0;
        while k < c
            invariant
                c == self.codes@.len(),
                k <= c,
                out@ == mid2 + i8_run_bytes(self.codes@.take(k as int)),
            decreases c - k,
        {
            out.push(#[verifier::truncate] (self.codes[k] as u8));
            assert(out@ =~= mid2 + i8_run_bytes(self.codes@.take(k + 1)));
            k = k + 1;
        }
        assert(self.codes@.take(c as int) =~= self.codes@);
        assert(out@ =~= encode_index(self.content()));
        Ok(out)
    }
}


proof fn lemma_parse_names_bytes(b: Seq<u8>, pos: int, ns: Seq<Seq<char>>)
    requires
        names_fit(ns),
        0 <= pos,
        pos + names_bytes(ns).len() <= b.len(),
        b.subrange(pos, pos + names_bytes(ns).len()) == names_bytes(ns),
    ensures
        parse_names(b, pos, ns.len()) == Ok::<(Seq<Seq<char>>, int), IndexError>(
            (ns, pos + names_bytes(ns).len()),
        ),
    decreases ns.len(),
{
    if ns.len() == 0 {
        assert(ns =~= Seq::<Seq<char>>::empty());
    } else {
        let e = encode_utf8(ns[0]);
        let l = e.len() as int;
        assert(l <= 65535);
        let rest = ns.skip(1);
        let nbr = names_bytes(rest);
        let all = names_bytes(ns);
        assert(all == name_entry(ns[0]) + nbr);
        assert(all.len() == 2 + l + nbr.len());
        assert(b[pos] == all[0]);
        assert(b[pos + 1] == all[1]);
        lemma_u16_le_roundtrip(l as u16);
        assert(le16(b, pos) == l);
        let sub = b.subrange(pos, pos + all.len());
        assert forall|k: int| 0 <= k < l implies b.subrange(pos + 2, pos + 2 + l)[k] == #[trigger] e[k] by {
            assert(b[pos + 2 + k] == sub[2 + k]);
            assert(all[2 + k] == e[k]);
        }
        assert(b.subrange(pos + 2, pos + 2 + l) =~= e);
        encode_utf8_valid_utf8(ns[0]);
        encode_utf8_decode_utf8(ns[0]);
        assert forall|k: int| 0 <= k < nbr.len() implies b.subrange(
            pos + 2 + l,
            pos + 2 + l + nbr.len(),
        )[k] == #[trigger] nbr[k] by {
            assert(b[pos + 2 + l + k] == sub[2 + l + k]);
            assert(all[2 + l + k] == nbr[k]);
        }
        assert(b.subrange(pos + 2 + l, pos + 2 + l + nbr.len()) =~= nbr);
        assert forall|i: int| 0 <= i < rest.len() implies #[trigger] encode_utf8(rest[i]).len()
            <= 65535 by {
            assert(rest[i] == ns[i + 1]);
        }
        lemma_parse_names_bytes(b, pos + 2 + l, rest);
        assert(seq![decode_utf8(b.subrange(pos + 2, pos + 2 + l))] + rest =~= ns);
    }
}

proof fn lemma_u32_run_bytes(vs: Seq<u32>)
    ensures
        u32_run_bytes(vs).len() == 4 * vs.len(),
        le32_run(u32_run_bytes(vs), 0, vs.len() as int) == vs,
    decreases vs.len(),
{
    if vs.len() > 0 {
        let n = vs.len() as int;
        let head = vs.drop_last();
        let bh = u32_run_bytes(head);
        let b = u32_run_bytes(vs);
        lemma_u32_run_bytes(head);
        assert(b == bh + u32_le(vs.last()));
        lemma_u32_le_roundtrip(vs.last());
        assert forall|i: int| 0 <= i < n implies #[trigger] le32_run(b, 0, n)[i] == vs[i] by {
            if i < n - 1 {
                assert(le32_run(bh, 0, n - 1)[i] == head[i]);
                assert(b[4 * i] == bh[4 * i]);
                assert(b[4 * i + 1] == bh[4 * i + 1]);
                assert(b[4 * i + 2] == bh[4 * i + 2]);
                assert(b[4 * i + 3] == bh[4 * i + 3]);
            } else {
                assert(b[4 * i] == u32_le(vs.last())[0]);
                assert(b[4 * i + 1] == u32_le(vs.last())[1]);
                assert(b[4 * i + 2] == u32_le(vs.last())[2]);
                assert(b[4 * i + 3] == u32_le(vs.last())[3]);
            }
        }
        assert(le32_run(b, 0, n) =~= vs);
    } else {
        assert(le32_run(u32_run_bytes(vs), 0, 0) =~= vs);
    }
}

/// Reading back the bytes written for an index gives that index: for an index of
/// the expected dimension whose names fit, with one scale and `EMBED_DIM` codes per
/// name.
pub proof fn lemma_index_roundtrip(c: IndexContent)
    requires
        c.dim == EMBED_DIM,
        c.names.len() <= u32::MAX,
        names_fit(c.names),
        c.scales.len() == c.names.len(),
        c.codes.len() == c.names.len() * EMBED_DIM,
    ensures
        parse_index(encode_index(c)) == Ok::<ParsedContent, IndexError>(ParsedContent::Quantized(c)),
{
    let b = encode_index(c);
    let count = c.names.len() as int;
    let nb = names_bytes(c.names);
    let nl = nb.len() as int;
    let sb = u32_run_bytes(c.scales);
    let cb = i8_run_bytes(c.codes);
    lemma_u32_run_bytes(c.scales);
    assert(b.len() == 16 + nb.len() + 4 * count + count * EMBED_DIM);
    lemma_u32_le_roundtrip(INDEX_VERSION_I8);
    lemma_u32_le_roundtrip(c.dim);
    lemma_u32_le_roundtrip(c.names.len() as u32);
    let hv = u32_le(INDEX_VERSION_I8);
    let hd = u32_le(c.dim);
    let hc = u32_le(c.names.len() as u32);
    assert(b[4] == hv[0] && b[5] == hv[1] && b[6] == hv[2] && b[7] == hv[3]);
    assert(b[8] == hd[0] && b[9] == hd[1] && b[10] == hd[2] && b[11] == hd[3]);
    assert(b[12] == hc[0] && b[13] == hc[1] && b[14] == hc[2] && b[15] == hc[3]);
    assert(le32(b, 4) == INDEX_VERSION_I8);
    assert(le32(b, 8) == EMBED_DIM);
    assert(le32(b, 12) == count);
    assert(b.subrange(16, 16 + nl) =~= nb);
    lemma_parse_names_bytes(b, 16, c.names);
    let p: int = 16 + nl;
    assert(b.subrange(p, p + 4 * count) =~= sb);
    assert(le32_run(b, p, count) =~= le32_run(sb, 0, count));
    assert forall|k: int| 0 <= k < count * EMBED_DIM implies #[trigger] i8_run(
        b,
        p + 4 * count,
        count * EMBED_DIM,
    )[k] == c.codes[k] by {
        let x = c.codes[k];
        assert(b[p + 4 * count + k] == cb[k]);
        assert(((x as u8) as i8) == x) by (bit_vector);
    }
    assert(i8_run(b, p + 4 * count, count * EMBED_DIM) =~= c.codes);
}

/// Why float vectors cannot be quantized into an index.
#[derive(Debug, Clone, Copy, PartialEq, Eq, Structural)]
pub enum VectorShapeProblem {
    /// There is no name.
    NoVectors,
    /// The number of values is not the number of names times the dimension.
    CountMismatch,
}

/// Checks float vectors before they are quantized: there must be a name, and
/// `values` must be `names` vectors of `dim` values each.
pub fn check_vector_shape(dim: u32, names: usize, values: usize) -> (r: Result<(), VectorShapeProblem>)
    requires
        names * dim <= usize::MAX,
    ensures
        names == 0 ==> r == Err::<(), VectorShapeProblem>(VectorShapeProblem::NoVectors),
        names > 0 && values != names * dim ==> r == Err::<(), VectorShapeProblem>(
            VectorShapeProblem::CountMismatch,
        ),
        names > 0 && values == names * dim ==> r == Ok::<(), VectorShapeProblem>(()),
{
    if names == 0 {
        return Err(VectorShapeProblem::NoVectors);
    }
    if values != names * (dim as usize) {
        return Err(VectorShapeProblem::CountMismatch);
    }
    Ok(())
}

} // verus!
