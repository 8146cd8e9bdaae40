//! The framing of file requests and responses: a length prefix, then the bytes.

use vstd::prelude::*;
use vstd::string::*;
use vstd::utf8::{decode_utf8, encode_utf8, valid_utf8};

verus! {

/// The unsigned LEB128 notation of `n`: seven bits a byte, least significant
/// first, the high bit set on every byte but the last.
pub open spec fn varint(n: nat) -> Seq<u8>
    decreases n,
{
    if n < 128 {
        seq![n as u8]
    } else {
        seq![(n % 128 + 128) as u8] + varint(n / 128)
    }
}

/// The number that the low seven bits of the bytes `s` write, least
/// significant first.
pub open spec fn varint_value(s: Seq<u8>) -> nat
    decreases s.len(),
{
    if s.len() == 0 {
        0
    } else {
        (s[0] % 128) as nat + 128 * varint_value(s.drop_first())
    }
}

/// The index of the first byte of `s` without its high bit.
pub open spec fn varint_end(s: Seq<u8>) -> Option<int>
    decreases s.len(),
{
    if s.len() == 0 {
        None
    } else if s[0] < 128 {
        Some(0)
    } else {
        match varint_end(s.drop_first()) {
            Some(k) => Some(k + 1),
            None => None,
        }
    }
}

/// Why a frame could not be read.
#[derive(Debug, Clone, Copy, PartialEq, Eq, Structural)]
pub enum FrameError {
    /// The bytes end before the frame does.
    Incomplete,
    /// The length prefix runs past ten bytes or past what a `usize` holds.
    Overflow,
    /// The frame is longer than allowed.
    TooLarge,
    /// A request's name is not UTF-8.
    InvalidUtf8,
}

/// What reading a length prefix from the start of `s` gives: the length and
/// the number of bytes the prefix takes.
pub open spec fn read_varint(s: Seq<u8>) -> Result<(nat, nat), FrameError> {
    let head = if s.len() < 10 {
        s
    } else {
        s.take(10)
    };
    match varint_end(head) {
        None => if s.len() >= 10 {
            Err(FrameError::Overflow)
        } else {
            Err(FrameError::Incomplete)
        },
        Some(k) => {
            let v = varint_value(s.take(k + 1));
            if v > usize::MAX {
                Err(FrameError::Overflow)
            } else {
                Ok((v, (k + 1) as nat))
            }
        },
    }
}

proof fn lemma_varint_end_bound(s: Seq<u8>)
    ensures
        match varint_end(s) {
            Some(k) => 0 <= k < s.len() && s[k] < 128 && forall|j: int| 0 <= j < k ==> s[j] >= 128,
            None => forall|j: int| 0 <= j < s.len() ==> s[j] >= 128,
        },
    decreases s.len(),
{
    if s.len() > 0 && s[0] >= 128 {
        lemma_varint_end_bound(s.drop_first());
        match varint_end(s.drop_first()) {
            Some(k) => {
                assert forall|j: int| 0 <= j < k + 1 implies s[j] >= 128 by {
                    if j > 0 {
                        assert(s[j] == s.drop_first()[j - 1]);
                    }
                }
            },
            None => {
                assert forall|j: int| 0 <= j < s.len() implies s[j] >= 128 by {
                    if j > 0 {
                        assert(s[j] == s.drop_first()[j - 1]);
                    }
                }
            },
        }
    }
}

proof fn lemma_varint_end_at(s: Seq<u8>, k: int)
    requires
        0 <= k < s.len(),
        s[k] < 128,
        forall|j: int| 0 <= j < k ==> s[j] >= 128,
    ensures
        varint_end(s) == Some(k),
    decreases s.len(),
{
    if k > 0 {
        lemma_varint_end_at(s.drop_first(), k - 1);
    }
}

/// The value of a tail of the bytes is at most the value of all of them.
proof fn lemma_varint_value_suffix(s: Seq<u8>, j: int)
    requires
        0 <= j <= s.len(),
    ensures
        varint_value(s.skip(j)) <= varint_value(s),
    decreases j,
{
    if j > 0 {
        lemma_varint_value_suffix(s, j - 1);
        assert(s.skip(j - 1).drop_first() =~= s.skip(j));
    } else {
        assert(s.skip(0) =~= s);
    }
}

/// The length written at the start of `bytes`, and the size of its prefix.
pub fn decode_varint(bytes: &[u8]) -> (res: Result<(usize, usize), FrameError>)
    ensures
        match res {
            Ok((n, k)) => read_varint(bytes@) == Ok::<(nat, nat), FrameError>((n as nat, k as nat))
                && k <= bytes@.len(),
            Err(e) => read_varint(bytes@) == Err::<(nat, nat), FrameError>(e),
        },
{
    let ghost s = bytes@;
    let limit = if bytes.len() < 10 {
        bytes.len()
    } else {
        10
    };
    let ghost head = if s.len() < 10 {
        s
    } else {
        s.take(10)
    };
    assert(head.len() == limit);
    let mut k: usize = 0;
    while k < limit && bytes[k] >= 128
        invariant
            k <= limit <= bytes.len(),
            limit == head.len(),
            head == (if s.len() < 10 { s } else { s.take(10) }),
            s == bytes@,
            forall|j: int| 0 <= j < k ==> head[j] >= 128,
        decreases limit - k,
    {
        assert(head[k as int] == bytes@[k as int]);
        k = k + 1;
    }
    if k == limit {
        proof {
            lemma_varint_end_bound(head);
            if let Some(e) = varint_end(head) {
                assert(head[e] >= 128);
            }
        }
        if bytes.len() >= 10 {
            return Err(FrameError::Overflow);
        } else {
            return Err(FrameError::Incomplete);
        }
    }
    assert(head[k as int] == bytes@[k as int]);
    proof {
        lemma_varint_end_at(head, k as int);
    }
    let ghost whole = s.take(k + 1);
    let mut value: usize = 0;
    let mut j: usize = k + 1;
    assert(whole.skip(k + 1) =~= Seq::<u8>::empty());
    assert(read_varint(bytes@) == (if varint_value(whole) > usize::MAX {
        Err::<(nat, nat), FrameError>(FrameError::Overflow)
    } else {
        Ok::<(nat, nat), FrameError>((varint_value(whole), (k + 1) as nat))
    }));
    while j > 0
        invariant
            read_varint(bytes@) == (if varint_value(whole) > usize::MAX {
                Err::<(nat, nat), FrameError>(FrameError::Overflow)
            } else {
                Ok::<(nat, nat), FrameError>((varint_value(whole), (k + 1) as nat))
            }),
            j <= k + 1,
            k < bytes.len(),
            whole == bytes@.take(k + 1),
            value as nat == varint_value(whole.skip(j as int)),
        decreases j,
    {
        let d = (bytes[j - 1] % 128) as usize;
        assert(whole.skip(j - 1).drop_first() =~= whole.skip(j as int));
        assert(whole.skip(j - 1)[0] == bytes@[j - 1]);
        match value.checked_mul(128) {
            None => {
                proof {
                    lemma_varint_value_suffix(whole, j - 1);
                }
                return Err(FrameError::Overflow);
            },
            Some(m) => match m.checked_add(d) {
                None => {
                    proof {
                        lemma_varint_value_suffix(whole, j - 1);
                    }
                    return Err(FrameError::Overflow);
                },
                Some(v) => {
                    value = v;
                },
            },
        }
        j = j - 1;
    }
    assert(whole.skip(0) =~= whole);
    Ok((value, k + 1))
}

/// The length prefix for `n`.
pub fn encode_varint(n: usize) -> (res: Vec<u8>)
    ensures
        res@ == varint(n as nat),
{
    let mut out: Vec<u8> = Vec::new();
    let mut rest = n;
    while rest >= 128
        invariant
            out@ + varint(rest as nat) == varint(n as nat),
        decreases rest,
    {
        let ghost before = out@;
        out.push((rest % 128 + 128) as u8);
        assert(out@ + varint((rest / 128) as nat) =~= before + varint(rest as nat));
        rest = rest / 128;
    }
    let ghost before = out@;
    out.push(rest as u8);
    assert(out@ =~= before + varint(rest as nat));
    out
}


/// `128` raised to the power `m`.
pub open spec fn pow128(m: nat) -> nat
    decreases m,
{
    if m == 0 {
        1
    } else {
        128 * pow128((m - 1) as nat)
    }
}

proof fn lemma_varint_shape(n: nat)
    ensures
        varint(n).len() >= 1,
        varint(n)[varint(n).len() - 1] < 128,
        forall|j: int| 0 <= j < varint(n).len() - 1 ==> varint(n)[j] >= 128,
        varint_value(varint(n)) == n,
    decreases n,
{
    if n >= 128 {
        lemma_varint_shape(n / 128);
        let e = varint(n);
        assert(e.drop_first() =~= varint(n / 128));
        assert forall|j: int| 0 <= j < e.len() - 1 implies e[j] >= 128 by {
            if j > 0 {
                assert(e[j] == varint(n / 128)[j - 1]);
            }
        }
        assert(e[e.len() - 1] == varint(n / 128)[varint(n / 128).len() - 1]);
        let x = (n % 128) as int;
        assert(e[0] == (x + 128) as u8);
        assert(((x + 128) as u8) as int == x + 128);
        assert((x + 128) % 128 == x);
        assert(n == x + 128 * (n / 128));
        assert((e[0] % 128) as int == x);
        assert(varint_value(e) == (e[0] % 128) as nat + 128 * varint_value(e.drop_first()));
    } else {
        assert(varint(n).drop_first() =~= Seq::<u8>::empty());
        assert(varint(n)[0] == n as u8);
        assert((n as u8) as int == n);
        assert(varint_value(varint(n).drop_first()) == 0);
        assert((varint(n)[0] % 128) as int == n);
    }
}

proof fn lemma_varint_len(n: nat, m: nat)
    requires
        m >= 1,
        n < pow128(m),
    ensures
        varint(n).len() <= m,
    decreases n,
{
    if n >= 128 {
        assert(m >= 2) by {
            if m == 1 {
                assert(pow128(1) == 128 * pow128(0));
            }
        }
        assert(n / 128 < pow128((m - 1) as nat));
        lemma_varint_len(n / 128, (m - 1) as nat);
    }
}

/// The length prefix of any `usize` reads back as that number, whatever
/// follows it.
pub proof fn varint_round_trip(n: usize, rest: Seq<u8>)
    ensures
        read_varint(varint(n as nat) + rest) == Ok::<(nat, nat), FrameError>(
            (n as nat, varint(n as nat).len()),
        ),
{
    let e = varint(n as nat);
    let s = e + rest;
    lemma_varint_shape(n as nat);
    assert(pow128(10) == 1180591620717411303424) by {
        reveal_with_fuel(pow128, 11);
    }
    lemma_varint_len(n as nat, 10);
    let head = if s.len() < 10 {
        s
    } else {
        s.take(10)
    };
    let k = e.len() - 1;
    assert(head[k] == e[k]);
    assert forall|j: int| 0 <= j < k implies head[j] >= 128 by {
        assert(head[j] == e[j]);
    }
    lemma_varint_end_at(head, k);
    assert(s.take(k + 1) =~= e);
}

/// What reading a frame from the start of `s` gives: nothing from nothing;
/// else a length prefix, then that many bytes, no more than `max`.
pub open spec fn read_frame(s: Seq<u8>, max: nat) -> Result<Seq<u8>, FrameError> {
    if s.len() == 0 {
        Ok(Seq::empty())
    } else {
        match read_varint(s) {
            Err(e) => Err(e),
            Ok((len, hdr)) => if len > max {
                Err(FrameError::TooLarge)
            } else if s.len() < hdr + len {
                Err(FrameError::Incomplete)
            } else {
                Ok(s.subrange(hdr as int, (hdr + len) as int))
            },
        }
    }
}

/// The bytes of a frame holding `payload`: its length prefix, then it.
pub open spec fn frame(payload: Seq<u8>) -> Seq<u8> {
    varint(payload.len()) + payload
}

/// The frame holding `payload`.
pub fn encode_frame(payload: &[u8]) -> (res: Vec<u8>)
    ensures
        res@ == frame(payload@),
{
    let mut out = encode_varint(payload.len());
    let ghost head = out@;
    let mut i: usize = 0;
    while i < payload.len()
        invariant
            i <= payload@.len(),
            out@ == head + payload@.take(i as int),
        decreases payload.len() - i,
    {
        out.push(payload[i]);
        assert(payload@.take(i + 1) =~= payload@.take(i as int).push(payload@[i as int]));
        i = i + 1;
    }
    assert(payload@.take(i as int) =~= payload@);
    out
}

/// The payload of the frame at the start of `bytes`, no longer than `max`.
pub fn decode_frame(bytes: &[u8], max: usize) -> (res: Result<Vec<u8>, FrameError>)
    ensures
        match res {
            Ok(p) => read_frame(bytes@, max as nat) == Ok::<Seq<u8>, FrameError>(p@),
            Err(e) => read_frame(bytes@, max as nat) == Err::<Seq<u8>, FrameError>(e),
        },
{
    if bytes.len() == 0 {
        return Ok(Vec::new());
    }
    match decode_varint(bytes) {
        Err(e) => Err(e),
        Ok((len, hdr)) => {
            if len > max {
                Err(FrameError::TooLarge)
            } else if bytes.len() - hdr < len {
                Err(FrameError::Incomplete)
            } else {
                Ok(crate::chunker::copy_bytes(bytes, hdr, hdr + len))
            }
        },
    }
}

/// A frame reads back as its payload, whatever follows it, where the payload
/// is no longer than allowed.
pub proof fn frame_round_trip(payload: Seq<u8>, rest: Seq<u8>, max: nat)
    requires
        payload.len() <= max,
        payload.len() <= usize::MAX,
    ensures
        read_frame(frame(payload) + rest, max) == Ok::<Seq<u8>, FrameError>(payload),
{
    let e = varint(payload.len());
    varint_round_trip(payload.len() as usize, payload + rest);
    assert(frame(payload) + rest =~= e + (payload + rest));
    lemma_varint_shape(payload.len());
    let s = frame(payload) + rest;
    assert(s.subrange(e.len() as int, (e.len() + payload.len()) as int) =~= payload);
}


/// The most bytes a request's frame may hold.
pub const REQUEST_MAX_SIZE: usize = 1024;

/// The most bytes a response's frame may hold.
pub const RESPONSE_MAX_SIZE: usize = 16384;

/// The protocol over which a file is asked for and sent back.
#[derive(Clone)]
pub struct FileTransferProtocol();

/// A request for the file `filename`.
#[derive(Debug, Clone)]
pub struct FileRequest {
    pub filename: String,
}

/// The content of a requested file.
#[derive(Debug, Clone)]
pub struct FileResponse {
    pub content: Vec<u8>,
}

/// How requests and responses are framed: a length prefix, then the bytes.
#[derive(Clone)]
pub struct FileTransferCodec;

pub open spec fn protocol_name_spec() -> Seq<char> {
    seq![
        '/', 'f', 'i', 'l', 'e', '-', 't', 'r', 'a', 'n', 's', 'f', 'e', 'r', '/', '1', '.', '0',
        '.', '0'
    ]
}

impl FileTransferProtocol {
    /// The protocol's name: `/file-transfer/1.0.0`.
    pub fn protocol_name(&self) -> (res: &'static str)
        ensures
            res@ == protocol_name_spec(),
    {
        proof {
            reveal_strlit("/file-transfer/1.0.0");
        }
        let name = "/file-transfer/1.0.0";
        assert(name@ =~= protocol_name_spec());
        name
    }
}

/// Calls `std::str::from_utf8`. Trusted: the result is `None` exactly when the
/// bytes are not UTF-8, and else the text they encode.
#[verifier::external_body]
fn utf8_text(bytes: &[u8]) -> (res: Option<&str>)
    ensures
        match res {
            Some(s) => valid_utf8(bytes@) && s@ == decode_utf8(bytes@),
            None => !valid_utf8(bytes@),
        },
{
    std::str::from_utf8(bytes).ok()
}

/// What reading a request from `s` gives: a frame of at most
/// `REQUEST_MAX_SIZE` bytes that is UTF-8, as the file's name.
pub open spec fn read_request(s: Seq<u8>) -> Result<Seq<char>, FrameError> {
    match read_frame(s, REQUEST_MAX_SIZE as nat) {
        Err(e) => Err(e),
        Ok(p) => if valid_utf8(p) {
            Ok(decode_utf8(p))
        } else {
            Err(FrameError::InvalidUtf8)
        },
    }
}

impl FileTransferCodec {
    /// The bytes that send `req`: the frame holding the file's name in UTF-8.
    pub fn encode_request(&self, req: &FileRequest) -> (res: Vec<u8>)
        ensures
            res@ == frame(encode_utf8(req.filename@)),
    {
        encode_frame(req.filename.as_str().as_bytes())
    }

    /// Reads a request from the bytes that came.
    pub fn decode_request(&self, bytes: &[u8]) -> (res: Result<FileRequest, FrameError>)
        ensures
            match res {
                Ok(req) => read_request(bytes@) == Ok::<Seq<char>, FrameError>(req.filename@),
                Err(e) => read_request(bytes@) == Err::<Seq<char>, FrameError>(e),
            },
    {
        let payload = decode_frame(bytes, REQUEST_MAX_SIZE)?;
        match utf8_text(payload.as_slice()) {
            Some(text) => Ok(FileRequest { filename: String::from_str(text) }),
            None => Err(FrameError::InvalidUtf8),
        }
    }

    /// The bytes that send `resp`: the frame holding its content.
    pub fn encode_response(&self, resp: &FileResponse) -> (res: Vec<u8>)
        ensures
            res@ == frame(resp.content@),
    {
        encode_frame(resp.content.as_slice())
    }

    /// Reads a response from the bytes that came: a frame of at most
    /// `RESPONSE_MAX_SIZE` bytes.
    pub fn decode_response(&self, bytes: &[u8]) -> (res: Result<FileResponse, FrameError>)
        ensures
            match res {
                Ok(resp) => read_frame(bytes@, RESPONSE_MAX_SIZE as nat) == Ok::<
                    Seq<u8>,
                    FrameError,
                >(resp.content@),
                Err(e) => read_frame(bytes@, RESPONSE_MAX_SIZE as nat) == Err::<Seq<u8>, FrameError>(
                    e,
                ),
            },
    {
        let content = decode_frame(bytes, RESPONSE_MAX_SIZE)?;
        Ok(FileResponse { content })
    }
}

/// A request sent for a file whose name takes no more than `REQUEST_MAX_SIZE`
/// bytes reads back as a request for that very file.
pub proof fn request_round_trip(name: Seq<char>, rest: Seq<u8>)
    requires
        encode_utf8(name).len() <= REQUEST_MAX_SIZE,
    ensures
        read_request(frame(encode_utf8(name)) + rest) == Ok::<Seq<char>, FrameError>(name),
{
    frame_round_trip(encode_utf8(name), rest, REQUEST_MAX_SIZE as nat);
    vstd::utf8::encode_utf8_valid_utf8(name);
    vstd::utf8::encode_utf8_decode_utf8(name);
}

/// A response of no more than `RESPONSE_MAX_SIZE` bytes reads back as the
/// very content that was sent.
pub proof fn response_round_trip(content: Seq<u8>, rest: Seq<u8>)
    requires
        content.len() <= RESPONSE_MAX_SIZE,
    ensures
        read_frame(frame(content) + rest, RESPONSE_MAX_SIZE as nat) == Ok::<Seq<u8>, FrameError>(
            content,
        ),
{
    frame_round_trip(content, rest, RESPONSE_MAX_SIZE as nat);
}

} // verus!
