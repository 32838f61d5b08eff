//! The WebSocket wire format: decoding raw bytes into a frame and encoding
//! a payload into a single, final frame.
use vstd::prelude::*;
use byteorder::{BigEndian, ByteOrder};

verus! {

/// The largest payload length the wire format admits: the most significant
/// bit of the 64-bit extended length must be clear.
pub const MAX_PAYLOAD_LEN: u64 = 0x7fff_ffff_ffff_ffff;

/// The largest payload this codec accepts from a peer (16 MiB); a frame
/// that declares more is refused before any of it is buffered.
pub const MAX_FRAME_PAYLOAD: u64 = 0x100_0000;

/// The frame's purpose, read from the low nibble of its first byte.
/// Reserved values keep their raw nibble.
#[derive(Debug, Clone, Copy, PartialEq, Eq, Structural)]
pub enum Opcode {
    Cont,
    Text,
    Binary,
    NonControl(u8),
    Close,
    Ping,
    Pong,
    Control(u8),
}

impl Opcode {
    /// A reserved variant carries a nibble of its own range.
    pub open spec fn wf(self) -> bool {
        match self {
            Opcode::NonControl(n) => 3 <= n <= 7,
            Opcode::Control(n) => 11 <= n <= 15,
            _ => true,
        }
    }
}

/// The opcode that a nibble (0..=15) stands for.
pub open spec fn opcode_of(nibble: u8) -> Opcode {
    if nibble == 0 {
        Opcode::Cont
    } else if nibble == 1 {
        Opcode::Text
    } else if nibble == 2 {
        Opcode::Binary
    } else if nibble <= 7 {
        Opcode::NonControl(nibble)
    } else if nibble == 8 {
        Opcode::Close
    } else if nibble == 9 {
        Opcode::Ping
    } else if nibble == 10 {
        Opcode::Pong
    } else {
        Opcode::Control(nibble)
    }
}

/// The nibble that an opcode is written as.
pub open spec fn nibble_of(op: Opcode) -> u8 {
    match op {
        Opcode::Cont => 0,
        Opcode::Text => 1,
        Opcode::Binary => 2,
        Opcode::NonControl(n) => n,
        Opcode::Close => 8,
        Opcode::Ping => 9,
        Opcode::Pong => 10,
        Opcode::Control(n) => n,
    }
}

/// A valid opcode is written as a nibble that reads back as itself.
pub proof fn lemma_opcode_nibble(op: Opcode)
    requires
        op.wf(),
    ensures
        nibble_of(op) < 16,
        opcode_of(nibble_of(op)) == op,
{
}

fn byte_to_opcode(byte: u8) -> (r: Opcode)
    ensures
        r == opcode_of(byte & 0x0f),
{
    let n = byte & 0x0f;
    if n == 0 {
        Opcode::Cont
    } else if n == 1 {
        Opcode::Text
    } else if n == 2 {
        Opcode::Binary
    } else if n <= 7 {
        Opcode::NonControl(n)
    } else if n == 8 {
        Opcode::Close
    } else if n == 9 {
        Opcode::Ping
    } else if n == 10 {
        Opcode::Pong
    } else {
        Opcode::Control(n)
    }
}

fn opcode_to_byte(opcode: Opcode) -> (r: u8)
    ensures
        r == nibble_of(opcode),
{
    match opcode {
        Opcode::Cont => 0x0,
        Opcode::Text => 0x1,
        Opcode::Binary => 0x2,
        Opcode::NonControl(n) => n,
        Opcode::Close => 0x8,
        Opcode::Ping => 0x9,
        Opcode::Pong => 0xa,
        Opcode::Control(n) => n,
    }
}

/// The number that a big-endian byte sequence writes.
pub open spec fn be_value(s: Seq<u8>) -> nat
    decreases s.len(),
{
    if s.len() == 0 {
        0
    } else {
        be_value(s.drop_last()) * 256 + s.last() as nat
    }
}

/// The `k` low-order bytes of `n`, most significant first.
pub open spec fn be_bytes(n: nat, k: nat) -> Seq<u8>
    decreases k,
{
    if k == 0 {
        Seq::empty()
    } else {
        be_bytes(n / 256, (k - 1) as nat).push((n % 256) as u8)
    }
}

/// 256 to the power `k`.
pub open spec fn pow256(k: nat) -> nat
    decreases k,
{
    if k == 0 {
        1
    } else {
        256 * pow256((k - 1) as nat)
    }
}

/// A number below `256^k` written as `k` big-endian bytes reads back as
/// itself.
pub proof fn lemma_be_round_trip(n: nat, k: nat)
    requires
        n < pow256(k),
    ensures
        be_bytes(n, k).len() == k,
        be_value(be_bytes(n, k)) == n,
    decreases k,
{
    if k > 0 {
        let k1 = (k - 1) as nat;
        assert(n / 256 < pow256(k1)) by (nonlinear_arith)
            requires
                n < 256 * pow256(k1),
        ;
        lemma_be_round_trip(n / 256, k1);
        assert(be_bytes(n, k).drop_last() =~= be_bytes(n / 256, k1));
        assert((n / 256) * 256 + n % 256 == n) by (nonlinear_arith);
    }
}

/// Relies on byteorder's `BigEndian::read_u16`: the first two bytes read
/// most significant first.
#[verifier::external_body]
fn read_u16_be(buf: &[u8], at: usize) -> (r: u16)
    requires
        at + 2 <= buf@.len(),
    ensures
        r as nat == be_value(buf@.subrange(at as int, at + 2)),
{
    BigEndian::read_u16(&buf[at..])
}

/// Relies on byteorder's `BigEndian::read_u64`: the first eight bytes read
/// most significant first.
#[verifier::external_body]
fn read_u64_be(buf: &[u8], at: usize) -> (r: u64)
    requires
        at + 8 <= buf@.len(),
    ensures
        r as nat == be_value(buf@.subrange(at as int, at + 8)),
{
    BigEndian::read_u64(&buf[at..])
}

/// Relies on byteorder's `BigEndian::write_u16`: the value as two bytes,
/// most significant first.
#[verifier::external_body]
fn write_u16_be(n: u16) -> (r: Vec<u8>)
    ensures
        r@ == be_bytes(n as nat, 2),
{
    let mut buf = [0u8; 2];
    BigEndian::write_u16(&mut buf, n);
    buf.to_vec()
}

/// Relies on byteorder's `BigEndian::write_u64`: the value as eight bytes,
/// most significant first.
#[verifier::external_body]
fn write_u64_be(n: u64) -> (r: Vec<u8>)
    ensures
        r@ == be_bytes(n as nat, 8),
{
    let mut buf = [0u8; 8];
    BigEndian::write_u64(&mut buf, n);
    buf.to_vec()
}

/// Why a payload cannot be framed.
#[derive(Debug, Clone, Copy, PartialEq, Eq, Structural)]
pub enum EncodeError {
    /// The payload is longer than `MAX_PAYLOAD_LEN`.
    TooLong,
}

/// The length field for a payload of `n` bytes, mask bit clear: the
/// smallest of the three encodings that holds `n`.
pub open spec fn len_field(n: nat) -> Seq<u8> {
    if n <= 125 {
        seq![n as u8]
    } else if n <= 0xffff {
        seq![126u8] + be_bytes(n, 2)
    } else {
        seq![127u8] + be_bytes(n, 8)
    }
}

/// Writes the length field for a payload of `len` bytes.
fn len_to_vec(len: usize) -> (r: Result<Vec<u8>, EncodeError>)
    ensures
        match r {
            Ok(v) => len <= MAX_PAYLOAD_LEN && v@ == len_field(len as nat),
            Err(e) => len > MAX_PAYLOAD_LEN && e == EncodeError::TooLong,
        },
{
    let mut res: Vec<u8> = Vec::new();
    if len <= 125 {
        res.push(len as u8);
    } else if len <= 0xffff {
        res.push(126u8);
        let mut bytes = write_u16_be(len as u16);
        res.append(&mut bytes);
    } else if (len as u64) <= MAX_PAYLOAD_LEN {
        res.push(127u8);
        let mut bytes = write_u64_be(len as u64);
        res.append(&mut bytes);
    } else {
        return Err(EncodeError::TooLong);
    }
    assert(res@ =~= len_field(len as nat));
    Ok(res)
}

/// The length field is the smallest of the three forms: one byte up to
/// 125, the marker 126 and two big-endian bytes up to 0xffff, the marker
/// 127 and eight big-endian bytes above; the bytes after the marker read
/// back as the length.
pub proof fn lemma_length_field_selection(n: nat)
    requires
        n <= MAX_PAYLOAD_LEN,
    ensures
        n <= 125 ==> len_field(n).len() == 1 && len_field(n)[0] == n,
        125 < n <= 0xffff ==> len_field(n).len() == 3 && len_field(n)[0] == 126 && be_value(
            len_field(n).drop_first(),
        ) == n,
        0xffff < n ==> len_field(n).len() == 9 && len_field(n)[0] == 127 && be_value(
            len_field(n).drop_first(),
        ) == n,
{
    assert(pow256(0) == 1);
    assert(pow256(1) == 256);
    assert(pow256(2) == 0x1_0000);
    assert(pow256(3) == 0x100_0000);
    assert(pow256(4) == 0x1_0000_0000);
    assert(pow256(5) == 0x100_0000_0000);
    assert(pow256(6) == 0x1_0000_0000_0000);
    assert(pow256(7) == 0x100_0000_0000_0000);
    assert(pow256(8) == 0x1_0000_0000_0000_0000);
    if 125 < n <= 0xffff {
        lemma_be_round_trip(n, 2);
        assert(len_field(n).drop_first() =~= be_bytes(n, 2));
    } else if 0xffff < n {
        lemma_be_round_trip(n, 8);
        assert(len_field(n).drop_first() =~= be_bytes(n, 8));
    }
}

/// Each byte at position `i` XORed with `key[i % 4]`.
pub open spec fn mask_spec(p: Seq<u8>, key: Seq<u8>) -> Seq<u8> {
    Seq::new(p.len(), |i: int| p[i] ^ key[i % 4])
}

/// The payload as it stands on the wire: masked when a key is given.
pub open spec fn apply_key(p: Seq<u8>, key: Option<Seq<u8>>) -> Seq<u8> {
    match key {
        Some(k) => mask_spec(p, k),
        None => p,
    }
}

/// Masking with one key twice gives the payload back.
pub proof fn lemma_mask_involution(p: Seq<u8>, key: Seq<u8>)
    requires
        key.len() == 4,
    ensures
        mask_spec(mask_spec(p, key), key) == p,
{
    assert forall|i: int| 0 <= i < p.len() implies #[trigger] mask_spec(mask_spec(p, key), key)[i]
        == p[i] by {
        let x = p[i];
        let k = key[i % 4];
        assert(x ^ k ^ k == x) by (bit_vector);
    }
    assert(mask_spec(mask_spec(p, key), key) =~= p);
}

pub open spec fn key_view(key: Option<[u8; 4]>) -> Option<Seq<u8>> {
    match key {
        Some(k) => Some(k@),
        None => None,
    }
}

/// Appends `buf[start..start + n]`, masked with `key` when there is one.
fn push_payload(out: &mut Vec<u8>, buf: &[u8], start: usize, n: usize, key: Option<[u8; 4]>)
    requires
        start + n <= buf@.len(),
    ensures
        final(out)@ == old(out)@ + apply_key(buf@.subrange(start as int, start + n), key_view(key)),
{
    let blen = buf.len();
    let ghost prefix = old(out)@;
    let ghost body = buf@.subrange(start as int, start + n);
    let mut i: usize = 0;
    while i < n
        invariant
            start + n <= blen,
            blen == buf@.len(),
            body == buf@.subrange(start as int, start + n),
            i <= n,
            out@ == prefix + apply_key(body, key_view(key)).subrange(0, i as int),
        decreases n - i,
    {
        let b = buf[start + i];
        match key {
            Some(k) => out.push(b ^ k[i % 4]),
            None => out.push(b),
        }
        i = i + 1;
        assert(out@ =~= prefix + apply_key(body, key_view(key)).subrange(0, i as int));
    }
    assert(apply_key(body, key_view(key)).subrange(0, n as int) =~= apply_key(body, key_view(key)));
}

/// The length field with the mask bit set when the payload is masked.
pub open spec fn marked_len_field(n: nat, masked: bool) -> Seq<u8> {
    if masked {
        len_field(n).update(0, len_field(n)[0] | 0x80)
    } else {
        len_field(n)
    }
}

/// The single final frame that carries `p` under opcode `op`.
pub open spec fn encode_spec(op: Opcode, p: Seq<u8>, key: Option<Seq<u8>>) -> Seq<u8> {
    seq![0x80u8 | nibble_of(op)] + marked_len_field(p.len(), key is Some) + match key {
        Some(k) => k,
        None => Seq::empty(),
    } + apply_key(p, key)
}

/// Frames `msg` as one final frame with opcode `opcode`; the payload is
/// masked with `mask` when one is given.
pub fn pack_message(opcode: Opcode, msg: &[u8], mask: Option<[u8; 4]>) -> (r: Result<
    Vec<u8>,
    EncodeError,
>)
    requires
        opcode.wf(),
    ensures
        match r {
            Ok(v) => msg@.len() <= MAX_PAYLOAD_LEN && v@ == encode_spec(
                opcode,
                msg@,
                key_view(mask),
            ),
            Err(e) => msg@.len() > MAX_PAYLOAD_LEN && e == EncodeError::TooLong,
        },
{
    let len = msg.len();
    let lf = match len_to_vec(len) {
        Ok(v) => v,
        Err(e) => return Err(e),
    };
    let mut frame: Vec<u8> = Vec::new();
    frame.push(0x80u8 | opcode_to_byte(opcode));
    let ghost lfs = marked_len_field(len as nat, mask is Some);
    let mut i: usize = 0;
    while i < lf.len()
        invariant
            lf@ == len_field(len as nat),
            lfs == marked_len_field(len as nat, mask is Some),
            lfs.len() == lf@.len(),
            i <= lf@.len(),
            frame@ == seq![0x80u8 | nibble_of(opcode)] + lfs.subrange(0, i as int),
        decreases lf.len() - i,
    {
        if i == 0 && mask.is_some() {
            frame.push(lf[i] | 0x80);
        } else {
            frame.push(lf[i]);
        }
        i = i + 1;
        assert(frame@ =~= seq![0x80u8 | nibble_of(opcode)] + lfs.subrange(0, i as int));
    }
    assert(lfs.subrange(0, lfs.len() as int) =~= lfs);
    let ghost head = frame@;
    match mask {
        Some(k) => {
            frame.push(k[0]);
            frame.push(k[1]);
            frame.push(k[2]);
            frame.push(k[3]);
            assert(frame@ =~= head + k@);
        },
        None => {},
    }
    push_payload(&mut frame, msg, 0, len, mask);
    assert(msg@.subrange(0, len as int) =~= msg@);
    assert(frame@ =~= encode_spec(opcode, msg@, key_view(mask)));
    Ok(frame)
}

/// Why bytes do not decode to a frame.
#[derive(Debug, Clone, Copy, PartialEq, Eq, Structural)]
pub enum DecodeError {
    /// Fewer bytes than the header declares: buffer more and retry.
    Incomplete,
    /// A reserved bit is set, and no extension was negotiated.
    UnsupportedExtension,
    /// The declared payload length is over `MAX_FRAME_PAYLOAD`.
    TooLong,
}

/// A decoded frame.
pub struct Frame {
    pub fin: bool,
    pub opcode: Opcode,
    pub masking_key: Option<[u8; 4]>,
    /// The payload, unmasked.
    pub payload: Vec<u8>,
}

pub struct FrameView {
    pub fin: bool,
    pub opcode: Opcode,
    pub masking_key: Option<Seq<u8>>,
    pub payload: Seq<u8>,
}

impl View for Frame {
    type V = FrameView;

    open spec fn view(&self) -> FrameView {
        FrameView {
            fin: self.fin,
            opcode: self.opcode,
            masking_key: key_view(self.masking_key),
            payload: self.payload@,
        }
    }
}

/// How many bytes of extended length follow the second byte `b1`.
pub open spec fn ext_len(b1: u8) -> nat {
    if b1 & 0x7f < 126 {
        0
    } else if b1 & 0x7f == 126 {
        2
    } else {
        8
    }
}

pub open spec fn is_masked(b1: u8) -> bool {
    b1 & 0x80 != 0
}

/// The header's size: two bytes, the extended length and the masking key.
pub open spec fn header_len(b1: u8) -> nat {
    2 + ext_len(b1) + if is_masked(b1) {
        4nat
    } else {
        0nat
    }
}

/// The payload length that the header at the start of `b` declares.
pub open spec fn declared_len(b: Seq<u8>) -> nat {
    if b[1] & 0x7f < 126 {
        (b[1] & 0x7f) as nat
    } else {
        be_value(b.subrange(2, 2 + ext_len(b[1]) as int))
    }
}

/// The frame at the start of `b` and the number of bytes it takes.
pub open spec fn decode_spec(b: Seq<u8>) -> Result<(FrameView, nat), DecodeError> {
    if b.len() == 0 {
        Err(DecodeError::Incomplete)
    } else if b[0] & 0x70 != 0 {
        Err(DecodeError::UnsupportedExtension)
    } else if b.len() < 2 || b.len() < 2 + ext_len(b[1]) {
        Err(DecodeError::Incomplete)
    } else if declared_len(b) > MAX_FRAME_PAYLOAD {
        Err(DecodeError::TooLong)
    } else if b.len() < header_len(b[1]) + declared_len(b) {
        Err(DecodeError::Incomplete)
    } else {
        let h = header_len(b[1]);
        let n = declared_len(b);
        let key = if is_masked(b[1]) {
            Some(b.subrange(h - 4, h as int))
        } else {
            None
        };
        Ok(
            (
                FrameView {
                    fin: b[0] & 0x80 != 0,
                    opcode: opcode_of(b[0] & 0x0f),
                    masking_key: key,
                    payload: apply_key(b.subrange(h as int, (h + n) as int), key),
                },
                h + n,
            ),
        )
    }
}

/// Decodes the frame at the start of `buf`, returning it with the number
/// of bytes it takes.
pub fn parse_frame(buf: &[u8]) -> (r: Result<(Frame, usize), DecodeError>)
    ensures
        match r {
            Ok((f, n)) => decode_spec(buf@) == Ok::<(FrameView, nat), DecodeError>((f@, n as nat)),
            Err(e) => decode_spec(buf@) == Err::<(FrameView, nat), DecodeError>(e),
        },
{
    let blen = buf.len();
    if blen == 0 {
        return Err(DecodeError::Incomplete);
    }
    let b0 = buf[0];
    if b0 & 0x70 != 0 {
        return Err(DecodeError::UnsupportedExtension);
    }
    if blen < 2 {
        return Err(DecodeError::Incomplete);
    }
    let b1 = buf[1];
    let len7 = b1 & 0x7f;
    let ext: usize;
    let n: u64;
    if len7 < 126 {
        ext = 0;
        n = len7 as u64;
    } else if len7 == 126 {
        if blen < 4 {
            return Err(DecodeError::Incomplete);
        }
        ext = 2;
        n = read_u16_be(buf, 2) as u64;
    } else {
        if blen < 10 {
            return Err(DecodeError::Incomplete);
        }
        ext = 8;
        n = read_u64_be(buf, 2);
    }
    assert(n as nat == declared_len(buf@));
    if n > MAX_FRAME_PAYLOAD {
        return Err(DecodeError::TooLong);
    }
    let masked = b1 & 0x80 != 0;
    let h: usize = if masked {
        2 + ext + 4
    } else {
        2 + ext
    };
    if (blen as u64) < h as u64 + n {
        return Err(DecodeError::Incomplete);
    }
    let n = n as usize;
    let key = if masked {
        Some([buf[h - 4], buf[h - 3], buf[h - 2], buf[h - 1]])
    } else {
        None
    };
    assert(key_view(key) == (if is_masked(b1) {
        Some(buf@.subrange(h - 4, h as int))
    } else {
        None
    })) by {
        if masked {
            assert(key.unwrap()@ =~= buf@.subrange(h - 4, h as int));
        }
    }
    let mut payload: Vec<u8> = Vec::new();
    push_payload(&mut payload, buf, h, n, key);
    assert(payload@ =~= apply_key(buf@.subrange(h as int, h + n), key_view(key)));
    let f = Frame { fin: b0 & 0x80 != 0, opcode: byte_to_opcode(b0), masking_key: key, payload };
    Ok((f, h + n))
}

/// A decoded frame takes its header and payload, and no more than the
/// buffer holds.
pub proof fn lemma_decode_consumes(b: Seq<u8>)
    ensures
        decode_spec(b) matches Ok((f, n)) ==> 2 <= n <= b.len() && f.payload.len()
            <= MAX_FRAME_PAYLOAD,
{
}

proof fn lemma_len_byte_bits(x: u8)
    ensures
        x <= 125 ==> x & 0x7f == x && x & 0x80 == 0 && (x | 0x80) & 0x7f == x && (x | 0x80)
            & 0x80 != 0,
        (126u8 | 0x80) & 0x7f == 126 && (127u8 | 0x80) & 0x7f == 127,
        (126u8 | 0x80) & 0x80 != 0 && (127u8 | 0x80) & 0x80 != 0,
        126u8 & 0x7f == 126 && 127u8 & 0x7f == 127 && 126u8 & 0x80 == 0 && 127u8 & 0x80 == 0,
{
    assert(x <= 125 ==> x & 0x7f == x && x & 0x80 == 0 && (x | 0x80) & 0x7f == x && (x | 0x80)
        & 0x80 != 0) by (bit_vector);
    assert((126u8 | 0x80) & 0x7f == 126 && (127u8 | 0x80) & 0x7f == 127) by (bit_vector);
    assert((126u8 | 0x80) & 0x80 != 0 && (127u8 | 0x80) & 0x80 != 0) by (bit_vector);
    assert(126u8 & 0x7f == 126 && 127u8 & 0x7f == 127 && 126u8 & 0x80 == 0 && 127u8 & 0x80 == 0)
        by (bit_vector);
}

/// Decoding what `encode_spec` wrote for a payload within the decoder's
/// cap gives back the opcode and the payload, and takes every byte that was
/// written; a masked frame also gives back its key.
pub proof fn lemma_round_trip(op: Opcode, p: Seq<u8>, key: Option<Seq<u8>>)
    requires
        op.wf(),
        p.len() <= MAX_FRAME_PAYLOAD,
        key matches Some(k) ==> k.len() == 4,
    ensures
        decode_spec(encode_spec(op, p, key)) == Ok::<(FrameView, nat), DecodeError>(
            (
                FrameView { fin: true, opcode: op, masking_key: key, payload: p },
                encode_spec(op, p, key).len(),
            ),
        ),
{
    let b = encode_spec(op, p, key);
    let nib = nibble_of(op);
    lemma_opcode_nibble(op);
    assert(nib < 16 ==> (0x80u8 | nib) & 0x70 == 0 && (0x80u8 | nib) & 0x0f == nib && (0x80u8
        | nib) & 0x80 != 0) by (bit_vector);
    let n = p.len();
    let masked = key is Some;
    let lf = len_field(n);
    let lfm = marked_len_field(n, masked);
    let kb = match key {
        Some(k) => k,
        None => Seq::<u8>::empty(),
    };
    let q = apply_key(p, key);
    assert(b =~= seq![0x80u8 | nib] + lfm + kb + q);
    lemma_len_byte_bits(n as u8);
    assert(pow256(0) == 1);
    assert(pow256(1) == 256);
    assert(pow256(2) == 0x1_0000);
    assert(pow256(3) == 0x100_0000);
    assert(pow256(4) == 0x1_0000_0000);
    assert(pow256(5) == 0x100_0000_0000);
    assert(pow256(6) == 0x1_0000_0000_0000);
    assert(pow256(7) == 0x100_0000_0000_0000);
    assert(pow256(8) == 0x1_0000_0000_0000_0000);
    let ext: nat = if n <= 125 {
        0
    } else if n <= 0xffff {
        2
    } else {
        8
    };
    if n > 125 {
        lemma_be_round_trip(n, ext);
        assert(b.subrange(2, 2 + ext as int) =~= be_bytes(n, ext));
    }
    assert(b[1] == lfm[0]);
    assert(ext_len(b[1]) == ext);
    assert(is_masked(b[1]) == masked);
    assert(declared_len(b) == n);
    let h = header_len(b[1]);
    assert(h == 2 + ext + kb.len());
    assert(b.subrange(h as int, (h + n) as int) =~= q);
    if let Some(k) = key {
        assert(b.subrange(h - 4, h as int) =~= k);
        lemma_mask_involution(p, k);
    }
}

} // verus!
