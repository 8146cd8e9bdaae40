//! Cutting a file into chunks, and the SHA-256 hash of each, in hexadecimal.

use vstd::prelude::*;
use vstd::string::*;
use sha2::Digest;
use sha2::Sha256;

verus! {

/// The size of the pieces into which a file is cut (1 MiB).
pub const CHUNK_SIZE: usize = 1_048_576;

/// What is known of a chunk of a file: its SHA-256 hash, in hexadecimal, and
/// its size in bytes.
#[derive(Debug)]
pub struct ChunkMetadata {
    pub hash: String,
    pub size: usize,
}

/// The SHA-256 digest of `data`.
pub uninterp spec fn sha256(data: Seq<u8>) -> Seq<u8>;

/// Calls `sha2::Sha256::digest`. Trusted: the result is the SHA-256 digest of
/// `data`, named `sha256`, 32 bytes long.
#[verifier::external_body]
fn sha256_digest(data: &[u8]) -> (res: Vec<u8>)
    ensures
        res@ == sha256(data@),
        res@.len() == 32,
{
    Sha256::digest(data).to_vec()
}

/// The lowercase hexadecimal digit of `d` (0 to 15).
pub open spec fn hex_digit(d: int) -> char {
    if d < 10 {
        (d + 48) as char
    } else {
        (d + 87) as char
    }
}

/// The lowercase hexadecimal notation of `bytes`, two digits a byte, high
/// half first.
pub open spec fn hex_lower(bytes: Seq<u8>) -> Seq<char>
    decreases bytes.len(),
{
    if bytes.len() == 0 {
        Seq::empty()
    } else {
        hex_lower(bytes.drop_last()) + seq![
            hex_digit(bytes.last() as int / 16),
            hex_digit(bytes.last() as int % 16),
        ]
    }
}

fn hex_digit_str(d: u8) -> (s: &'static str)
    requires
        d < 16,
    ensures
        s@ == seq![hex_digit(d as int)],
{
    let digits = "0123456789abcdef";
    proof {
        reveal_strlit("0123456789abcdef");
    }
    let s = digits.substring_char(d as usize, d as usize + 1);
    assert(s@ =~= seq![hex_digit(d as int)]);
    s
}

/// The lowercase hexadecimal notation of `bytes`.
pub fn hex_encode(bytes: &[u8]) -> (res: String)
    ensures
        res@ == hex_lower(bytes@),
        res@.len() == 2 * bytes@.len(),
{
    let mut res = String::new();
    let mut i: usize = 0;
    while i < bytes.len()
        invariant
            i <= bytes.len(),
            res@ == hex_lower(bytes@.take(i as int)),
            res@.len() == 2 * i,
        decreases bytes.len() - i,
    {
        let b = bytes[i];
        res.append(hex_digit_str(b / 16));
        res.append(hex_digit_str(b % 16));
        assert(bytes@.take(i + 1).drop_last() =~= bytes@.take(i as int));
        i = i + 1;
    }
    assert(bytes@.take(i as int) =~= bytes@);
    res
}

/// The SHA-256 hash of `data`, in lowercase hexadecimal.
pub fn hash_data(data: &[u8]) -> (res: String)
    ensures
        res@ == hex_lower(sha256(data@)),
        res@.len() == 64,
{
    let digest = sha256_digest(data);
    hex_encode(digest.as_slice())
}


/// `data` cut into pieces of `size` bytes, the last one shorter where the
/// size does not divide the length.
pub open spec fn chunks_of(data: Seq<u8>, size: nat) -> Seq<Seq<u8>>
    decreases data.len(),
{
    if data.len() == 0 || size == 0 {
        Seq::empty()
    } else if data.len() <= size {
        seq![data]
    } else {
        seq![data.take(size as int)] + chunks_of(data.skip(size as int), size)
    }
}

/// The pieces `parts` put back together, in order.
pub open spec fn concat_all(parts: Seq<Seq<u8>>) -> Seq<u8>
    decreases parts.len(),
{
    if parts.len() == 0 {
        Seq::empty()
    } else {
        parts[0] + concat_all(parts.drop_first())
    }
}

/// The views of a list of byte vectors.
pub open spec fn byte_views(v: Seq<Vec<u8>>) -> Seq<Seq<u8>> {
    v.map_values(|b: Vec<u8>| b@)
}

/// Cutting data into chunks loses nothing and adds nothing: the chunks put
/// back together are the data, none is empty, none is longer than the chunk
/// size, and all but the last are exactly that long.
pub proof fn chunks_reassemble(data: Seq<u8>, size: nat)
    requires
        size > 0,
    ensures
        concat_all(chunks_of(data, size)) == data,
        forall|k: int|
            0 <= k < chunks_of(data, size).len() ==> 0 < (#[trigger] chunks_of(data, size)[k]).len()
                <= size,
        forall|k: int|
            0 <= k < chunks_of(data, size).len() - 1 ==> (#[trigger] chunks_of(
                data,
                size,
            )[k]).len() == size,
    decreases data.len(),
{
    let c = chunks_of(data, size);
    if data.len() == 0 {
        assert(concat_all(c) =~= data);
    } else if data.len() <= size {
        assert(c.drop_first() =~= Seq::<Seq<u8>>::empty());
        assert(concat_all(c.drop_first()) =~= Seq::<u8>::empty());
        assert(concat_all(c) =~= data);
    } else {
        let rest = data.skip(size as int);
        chunks_reassemble(rest, size);
        assert(c.drop_first() =~= chunks_of(rest, size));
        assert(data.take(size as int) + rest =~= data);
        assert forall|k: int| 0 <= k < c.len() implies 0 < (#[trigger] c[k]).len() <= size by {
            if k > 0 {
                assert(c[k] == chunks_of(rest, size)[k - 1]);
            }
        }
        assert forall|k: int| 0 <= k < c.len() - 1 implies (#[trigger] c[k]).len() == size by {
            if k > 0 {
                assert(c[k] == chunks_of(rest, size)[k - 1]);
            }
        }
    }
}

/// A copy of `data[lo..hi]`.
pub fn copy_bytes(data: &[u8], lo: usize, hi: usize) -> (res: Vec<u8>)
    requires
        lo <= hi <= data.len(),
    ensures
        res@ == data@.subrange(lo as int, hi as int),
{
    let mut res: Vec<u8> = Vec::new();
    let mut i = lo;
    while i < hi
        invariant
            lo <= i <= hi <= data.len(),
            res@ == data@.subrange(lo as int, i as int),
        decreases hi - i,
    {
        res.push(data[i]);
        i = i + 1;
    }
    res
}

/// Cuts `data` into pieces of `size` bytes, in order.
pub fn split_into_chunks(data: &[u8], size: usize) -> (res: Vec<Vec<u8>>)
    requires
        size > 0,
    ensures
        byte_views(res@) == chunks_of(data@, size as nat),
{
    let mut res: Vec<Vec<u8>> = Vec::new();
    let mut offset: usize = 0;
    assert(data@.skip(0) =~= data@);
    while offset < data.len()
        invariant
            size > 0,
            offset <= data.len(),
            byte_views(res@) + chunks_of(data@.skip(offset as int), size as nat) == chunks_of(
                data@,
                size as nat,
            ),
        decreases data.len() - offset,
    {
        let ghost rest = data@.skip(offset as int);
        let ghost before = byte_views(res@);
        if data.len() - offset <= size {
            let piece = copy_bytes(data, offset, data.len());
            assert(piece@ =~= rest);
            res.push(piece);
            assert(byte_views(res@) =~= before.push(rest));
            assert(chunks_of(data@.skip(data.len() as int), size as nat) =~= Seq::<Seq<u8>>::empty());
            assert(chunks_of(rest, size as nat) =~= seq![rest]);
            assert(before + seq![rest] =~= before.push(rest));
            offset = data.len();
        } else {
            let piece = copy_bytes(data, offset, offset + size);
            assert(piece@ =~= rest.take(size as int));
            res.push(piece);
            assert(byte_views(res@) =~= before.push(rest.take(size as int)));
            assert(rest.skip(size as int) =~= data@.skip(offset + size));
            assert(before.push(rest.take(size as int)) + chunks_of(rest.skip(size as int), size as nat)
                =~= before + (seq![rest.take(size as int)] + chunks_of(rest.skip(size as int), size as nat)));
            offset = offset + size;
        }
    }
    assert(chunks_of(data@.skip(offset as int), size as nat) =~= Seq::<Seq<u8>>::empty());
    assert(byte_views(res@) + Seq::<Seq<u8>>::empty() =~= byte_views(res@));
    res
}

/// The metadata of each chunk of `data`, cut at `CHUNK_SIZE`: its hash and
/// its size.
pub fn chunk_metadata(data: &[u8]) -> (res: Vec<ChunkMetadata>)
    ensures
        res@.len() == chunks_of(data@, CHUNK_SIZE as nat).len(),
        forall|k: int|
            0 <= k < res@.len() ==> {
                &&& (#[trigger] res@[k]).size == chunks_of(data@, CHUNK_SIZE as nat)[k].len()
                &&& res@[k].hash@ == hex_lower(sha256(chunks_of(data@, CHUNK_SIZE as nat)[k]))
            },
{
    let chunks = split_into_chunks(data, CHUNK_SIZE);
    let mut res: Vec<ChunkMetadata> = Vec::new();
    let mut k: usize = 0;
    while k < chunks.len()
        invariant
            k <= chunks.len(),
            byte_views(chunks@) == chunks_of(data@, CHUNK_SIZE as nat),
            res@.len() == k,
            forall|j: int|
                0 <= j < k ==> {
                    &&& (#[trigger] res@[j]).size == chunks@[j]@.len()
                    &&& res@[j].hash@ == hex_lower(sha256(chunks@[j]@))
                },
        decreases chunks.len() - k,
    {
        let hash = hash_data(chunks[k].as_slice());
        res.push(ChunkMetadata { hash, size: chunks[k].len() });
        k = k + 1;
    }
    assert forall|j: int| 0 <= j < res@.len() implies chunks_of(data@, CHUNK_SIZE as nat)[j] == chunks@[j]@ by {
        assert(byte_views(chunks@)[j] == chunks@[j]@);
    }
    res
}


/// There are no more chunks than bytes, and at least one chunk where there is
/// a byte.
pub proof fn lemma_chunk_count(data: Seq<u8>, size: nat)
    requires
        size > 0,
    ensures
        chunks_of(data, size).len() <= data.len(),
        data.len() > 0 ==> chunks_of(data, size).len() >= 1,
    decreases data.len(),
{
    if data.len() > size {
        lemma_chunk_count(data.skip(size as int), size);
    }
}

} // verus!
