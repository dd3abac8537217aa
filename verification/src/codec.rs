//! Message framing and the multi-carrier codec. The on-the-wire layout of an
//! embedded message is
//! `[1 byte version][4 bytes big-endian body length][12-byte nonce][ciphertext][16-byte tag]`,
//! emitted LSB-first within each byte, sequentially across the carriers.

use vstd::prelude::*;

use crate::bits::{
    bits_of_bytes, bytes_of_bits, convert_bits_to_bytes, convert_bytes_to_bits,
    lemma_byte_roundtrip,
};
use crate::carrier::{
    all_channels, channels_prefix, embed_into, lemma_embed_bit, lemma_flat_embed,
    lemma_prefix_len_same, lsb_seq, set_bits_image, get_bits_reader_images, read_bits, Carrier,
};
use crate::common::{append_bytes, check_capacity_images, copy_bytes};
use crate::crypto::{decrypt, decrypt_spec, encrypt, open_body};
use crate::errors::StegoError;

verus! {

/// Version byte of the embedding protocol. A decoder rejects any other value.
pub const PROTOCOL_VERSION: u8 = 0;

/// Header size in bytes: one version byte plus a 4-byte body length.
pub const HEADER_LEN: usize = 5;

/// Nonce plus authentication tag: bytes the encrypted body adds on top of
/// the plaintext.
pub const BODY_OVERHEAD: usize = 28;

/// Header and encryption overhead together: framing a payload of `n` bytes
/// takes `n + FRAME_OVERHEAD` bytes.
pub const FRAME_OVERHEAD: usize = 5 + 28;

/// The 4 bytes of `n`, big-endian.
pub open spec fn be32_bytes(n: u32) -> Seq<u8> {
    seq![
        (n / 0x1000000) as u8,
        ((n / 0x10000) % 0x100) as u8,
        ((n / 0x100) % 0x100) as u8,
        (n % 0x100) as u8,
    ]
}

/// The value of 4 big-endian bytes.
pub open spec fn be32_value(b: Seq<u8>) -> int {
    (b[0] as int) * 0x1000000 + (b[1] as int) * 0x10000 + (b[2] as int) * 0x100 + (b[3] as int)
}

/// Reading back the 4 big-endian bytes of a value gives the value.
pub proof fn lemma_be32_roundtrip(n: u32)
    ensures
        be32_value(be32_bytes(n)) == n,
{
    let x = n as int;
    vstd::arithmetic::div_mod::lemma_fundamental_div_mod(x, 0x100);
    vstd::arithmetic::div_mod::lemma_fundamental_div_mod(x / 0x100, 0x100);
    vstd::arithmetic::div_mod::lemma_fundamental_div_mod(x / 0x10000, 0x100);
    vstd::arithmetic::div_mod::lemma_div_denominator(x, 0x100, 0x100);
    vstd::arithmetic::div_mod::lemma_div_denominator(x, 0x10000, 0x100);
}

/// The 5-byte message header for a body of `body_len` bytes.
pub open spec fn header_bytes(body_len: u32) -> Seq<u8> {
    seq![PROTOCOL_VERSION] + be32_bytes(body_len)
}

/// `bits` is a complete framed encoding of `message` under `key`: a header
/// announcing the body's length, then an encrypted body that decrypts to
/// `message`, all emitted LSB-first.
pub open spec fn framed_bits(
    bits: Seq<bool>,
    message: Seq<u8>,
    key: Seq<char>,
    body: Seq<u8>,
) -> bool {
    &&& body.len() == message.len() + 28
    &&& body.len() <= u32::MAX
    &&& open_body(key, body) == Some(message)
    &&& bits == bits_of_bytes(header_bytes(body.len() as u32) + body)
}

/// What decoding an embedded bit sequence under `key` yields: the 40 header
/// bits must be available, the version must match, the announced body must
/// be fully present, and the body must decrypt.
pub open spec fn decode_spec(bits: Seq<bool>, key: Seq<char>) -> Result<Seq<u8>, StegoError> {
    if bits.len() < 40 {
        Err(StegoError::InsufficientData)
    } else {
        let hdr = bytes_of_bits(bits.subrange(0, 40));
        let version = hdr[0];
        let blen = be32_value(hdr.subrange(1, 5));
        if version != PROTOCOL_VERSION {
            Err(StegoError::UnsupportedVersion { version })
        } else if bits.len() < 40 + 8 * blen {
            Err(StegoError::InsufficientData)
        } else {
            decrypt_spec(bytes_of_bits(bits.subrange(40, 40 + 8 * blen)), key)
        }
    }
}

/// Slicing a byte buffer commutes with the bit codec: the bytes rebuilt from
/// bit positions `8a .. 8b` are the buffer's bytes `a .. b`.
#[verifier::spinoff_prover]
pub proof fn lemma_bits_slice(s: Seq<u8>, a: int, b: int)
    requires
        0 <= a <= b <= s.len(),
    ensures
        bytes_of_bits(bits_of_bytes(s).subrange(8 * a, 8 * b)) == s.subrange(a, b),
{
    let bits = bits_of_bytes(s).subrange(8 * a, 8 * b);
    let lhs = bytes_of_bits(bits);
    assert(lhs.len() == b - a);
    assert forall|i: int| 0 <= i < b - a implies lhs[i] == s[a + i] by {
        let group = bits.subrange(8 * i, 8 * i + 8);
        assert(group =~= Seq::new(8, |j: int| crate::bits::bit_of(s[a + i], j)));
        lemma_byte_roundtrip(s[a + i]);
    }
    assert(lhs =~= s.subrange(a, b));
}

/// The 5-byte header for an encrypted body: the protocol version byte, then
/// the body's length in 4 big-endian bytes.
pub fn get_message_header_bytes(body_bytes: &[u8]) -> (r: Vec<u8>)
    requires
        body_bytes@.len() <= u32::MAX,
    ensures
        r@ == header_bytes(body_bytes@.len() as u32),
        r@.len() == 5,
{
    let message_len: u32 = body_bytes.len() as u32;
    let mut head: Vec<u8> = Vec::new();
    head.push(PROTOCOL_VERSION);
    head.push((message_len / 0x1000000) as u8);
    head.push(((message_len / 0x10000) % 0x100) as u8);
    head.push(((message_len / 0x100) % 0x100) as u8);
    head.push((message_len % 0x100) as u8);
    proof {
        assert(head@ =~= header_bytes(body_bytes@.len() as u32));
    }
    head
}

/// The encrypted message body for a payload: nonce, ciphertext and tag.
pub fn get_message_body_bytes(message_bytes: &[u8], key: &str) -> (r: Result<Vec<u8>, StegoError>)
    ensures
        r matches Ok(body) ==> body@.len() == message_bytes@.len() + 28 && open_body(key@, body@)
            == Some(message_bytes@),
        message_bytes@.len() <= u32::MAX ==> r matches Ok(_),
        r matches Err(e) ==> e == StegoError::EncryptionFailed,
{
    encrypt(message_bytes, key)
}

/// The complete framed bit sequence for a payload: header and encrypted
/// body, converted to bits LSB-first. Succeeds on every payload the header
/// can describe.
pub fn get_message_bits(message_bytes: &[u8], key: &str) -> (r: Result<Vec<bool>, StegoError>)
    requires
        message_bytes@.len() + 28 <= u32::MAX,
    ensures
        r matches Ok(bits),
        r matches Ok(bits) ==> bits@.len() == 8 * (message_bytes@.len() + 33) && (exists|
            body: Seq<u8>,
        | #[trigger] framed_bits(bits@, message_bytes@, key@, body)),
{
    let body_bytes = match get_message_body_bytes(message_bytes, key) {
        Ok(b) => b,
        Err(_) => unreached(),
    };
    let header_bytes_v = get_message_header_bytes(body_bytes.as_slice());
    let mut data: Vec<u8> = Vec::new();
    append_bytes(&mut data, header_bytes_v.as_slice());
    append_bytes(&mut data, body_bytes.as_slice());
    let bits = convert_bytes_to_bits(data.as_slice());
    proof {
        assert(data@ =~= header_bytes(body_bytes@.len() as u32) + body_bytes@);
        assert(framed_bits(bits@, message_bytes@, key@, body_bytes@));
    }
    Ok(bits)
}

/// Spreads the framed, encrypted payload over the carriers in order: bit `i`
/// of the message stream lands in the LSB of flat channel `i`; every channel
/// past the message and every high bit is unchanged; a carrier that receives
/// no bits is returned as an untouched copy. On success the carriers, read
/// back in this order, decode to the payload under the same key.
#[verifier::spinoff_prover]
pub fn encode(imgs: &Vec<Carrier>, message_bytes: &[u8], key: &str) -> (r: Result<
    Vec<Carrier>,
    StegoError,
>)
    requires
        message_bytes@.len() + 28 <= u32::MAX,
    ensures
        r matches Ok(out) <==> 8 * (message_bytes@.len() + 33) <= all_channels(imgs@).len(),
        r matches Err(e) ==> e == (StegoError::MessageTooLarge {
            capacity_bits: all_channels(imgs@).len() as usize,
            required_bits: (8 * (message_bytes@.len() + 33)) as usize,
        }),
        r matches Ok(out) ==> {
            &&& out@.len() == imgs@.len()
            &&& forall|i: int|
                0 <= i < imgs@.len() ==> out@[i].width == imgs@[i].width && out@[i].height
                    == imgs@[i].height && out@[i].data@.len() == imgs@[i].data@.len()
            &&& forall|j: int|
                8 * (message_bytes@.len() + 33) <= j < all_channels(imgs@).len() ==> all_channels(
                    out@,
                )[j] == all_channels(imgs@)[j]
            &&& forall|j: int|
                0 <= j < all_channels(imgs@).len() ==> all_channels(out@)[j] & 0xfe
                    == all_channels(imgs@)[j] & 0xfe
            &&& exists|body: Seq<u8>|
                #[trigger] framed_bits(
                    lsb_seq(all_channels(out@)).subrange(
                        0,
                        8 * (message_bytes@.len() + 33) as int,
                    ),
                    message_bytes@,
                    key@,
                    body,
                )
            &&& decode_spec(lsb_seq(all_channels(out@)), key@) == Ok::<_, StegoError>(
                message_bytes@,
            )
        },
{
    let bits = match get_message_bits(message_bytes, key) {
        Ok(b) => b,
        Err(_) => unreached(),
    };
    let total_bits = bits.len();
    if let Err(e) = check_capacity_images(imgs, bits.as_slice()) {
        return Err(e);
    }
    let ghost cs = imgs@;
    let mut out: Vec<Carrier> = Vec::new();
    let mut cursor: usize = 0;
    let mut i: usize = 0;
    while i < imgs.len()
        invariant
            cs == imgs@,
            i <= cs.len(),
            out@.len() == i,
            total_bits == bits@.len(),
            bits@.len() <= all_channels(cs).len(),
            cursor == if channels_prefix(cs, i as int).len() <= bits@.len() {
                channels_prefix(cs, i as int).len() as int
            } else {
                bits@.len() as int
            },
            forall|k: int|
                0 <= k < i ==> out@[k].width == cs[k].width && out@[k].height == cs[k].height
                    && out@[k].data@.len() == cs[k].data@.len(),
            forall|k: int|
                0 <= k < i ==> out@[k].data@ == embed_into(
                    cs[k].data@,
                    bits@,
                    channels_prefix(cs, k).len() as int,
                ),
        decreases cs.len() - i,
    {
        let ghost start = channels_prefix(cs, i as int).len() as int;
        let cap = imgs[i].data.len();
        let remaining = total_bits - cursor;
        let take = if remaining < cap {
            remaining
        } else {
            cap
        };
        let mut img = Carrier {
            width: imgs[i].width,
            height: imgs[i].height,
            data: copy_bytes(imgs[i].data.as_slice()),
        };
        proof {
            assert(channels_prefix(cs, i + 1) == channels_prefix(cs, i as int)
                + cs[i as int].data@);
            crate::carrier::lemma_prefix_len_monotonic(cs, i + 1, cs.len() as int);
        }
        let slice = vstd::slice::slice_subrange(bits.as_slice(), cursor, cursor + take);
        let res = set_bits_image(&mut img, slice);
        proof {
            assert(res matches Ok(()));
            assert forall|o: int| 0 <= o < img.data@.len() implies img.data@[o] == embed_into(
                cs[i as int].data@,
                bits@,
                start,
            )[o] by {
                if cursor <= bits@.len() && start == cursor {
                    if o < take {
                        assert(img.data@[o] == (cs[i as int].data@[o] & 0xfe) | (
                        crate::bits::bitval(slice@[o]) as u8));
                        assert(slice@[o] == bits@[cursor + o]);
                    } else {
                        assert(start + o >= bits@.len());
                    }
                } else {
                    // the message ended in an earlier carrier: take == 0
                    assert(start >= bits@.len());
                    assert(take == 0);
                }
            }
            assert(img.data@ =~= embed_into(cs[i as int].data@, bits@, start));
        }
        out.push(img);
        cursor = cursor + take;
        i += 1;
    }
    proof {
        lemma_flat_embed(cs, out@, bits@, cs.len() as int);
        lemma_prefix_len_same(cs, out@, cs.len() as int);
        assert(all_channels(out@) == embed_into(all_channels(cs), bits@, 0));
        lemma_encode_decodes(cs, out@, bits@, message_bytes@, key@);
    }
    Ok(out)
}

/// Embedding a bit sequence into a channel stream changes only the LSBs
/// under the bits, and the stream's LSB prefix then reads the bits back.
#[verifier::spinoff_prover]
proof fn lemma_embed_flat_facts(f: Seq<u8>, g: Seq<u8>, bits: Seq<bool>)
    requires
        g == embed_into(f, bits, 0),
        bits.len() <= f.len(),
    ensures
        g.len() == f.len(),
        forall|j: int| bits.len() <= j < f.len() ==> g[j] == f[j],
        forall|j: int| 0 <= j < f.len() ==> g[j] & 0xfe == f[j] & 0xfe,
        lsb_seq(g).subrange(0, bits.len() as int) == bits,
{
    assert forall|j: int| 0 <= j < f.len() implies g[j] & 0xfe == f[j] & 0xfe by {
        if j < bits.len() {
            lemma_embed_bit(f[j], bits[j]);
        }
    }
    assert forall|j: int| 0 <= j < bits.len() implies lsb_seq(g)[j] == bits[j] by {
        lemma_embed_bit(f[j], bits[j]);
    }
    assert(lsb_seq(g).subrange(0, bits.len() as int) =~= bits);
}

/// An LSB stream whose prefix is a complete framed encoding decodes to the
/// framed message, whatever follows the frame.
#[verifier::rlimit(60)]
#[verifier::spinoff_prover]
proof fn lemma_frame_decodes(
    lsbs: Seq<bool>,
    bits: Seq<bool>,
    message: Seq<u8>,
    key: Seq<char>,
    body: Seq<u8>,
)
    requires
        framed_bits(bits, message, key, body),
        bits.len() == 8 * (message.len() + 33),
        lsbs.len() >= bits.len(),
        lsbs.subrange(0, bits.len() as int) == bits,
    ensures
        decode_spec(lsbs, key) == Ok::<_, StegoError>(message),
{
    let frame = header_bytes(body.len() as u32) + body;
    assert(frame.len() == 5 + body.len());
    assert(bits == bits_of_bytes(frame));
    assert forall|j: int| 0 <= j < bits.len() implies lsbs[j] == bits[j] by {
        assert(bits[j] == lsbs.subrange(0, bits.len() as int)[j]);
    }
    // the header: the first 40 bits are the first 5 frame bytes
    assert(lsbs.subrange(0, 40) =~= bits.subrange(0, 40));
    lemma_bits_slice(frame, 0, 5);
    let hdr = bytes_of_bits(lsbs.subrange(0, 40));
    assert(hdr == frame.subrange(0, 5));
    assert(hdr[0] == PROTOCOL_VERSION);
    assert(hdr.subrange(1, 5) =~= be32_bytes(body.len() as u32));
    lemma_be32_roundtrip(body.len() as u32);
    let blen = be32_value(hdr.subrange(1, 5));
    assert(blen == body.len());
    // the body: the next 8 * blen bits are the frame's remaining bytes
    assert(lsbs.len() >= 40 + 8 * blen);
    assert(lsbs.subrange(40, 40 + 8 * blen) =~= bits.subrange(40, 40 + 8 * blen));
    lemma_bits_slice(frame, 5, frame.len() as int);
    assert(bytes_of_bits(bits.subrange(40, 40 + 8 * blen)) == frame.subrange(
        5,
        frame.len() as int,
    ));
    assert(frame.subrange(5, frame.len() as int) =~= body);
    assert(bytes_of_bits(lsbs.subrange(40, 40 + 8 * blen)) == body);
    assert(decrypt_spec(body, key) == Ok::<_, StegoError>(message));
}

/// From the flat embedding relation, every global claim of [`encode`]'s
/// contract follows: untouched channels, preserved high bits, the framed
/// prefix, and that decoding recovers the message.
#[verifier::spinoff_prover]
proof fn lemma_encode_decodes(
    cs: Seq<Carrier>,
    outs: Seq<Carrier>,
    bits: Seq<bool>,
    message: Seq<u8>,
    key: Seq<char>,
)
    requires
        all_channels(outs) == embed_into(all_channels(cs), bits, 0),
        bits.len() <= all_channels(cs).len(),
        bits.len() == 8 * (message.len() + 33),
        exists|body: Seq<u8>| #[trigger] framed_bits(bits, message, key, body),
    ensures
        forall|j: int|
            bits.len() <= j < all_channels(cs).len() ==> all_channels(outs)[j] == all_channels(
                cs,
            )[j],
        forall|j: int|
            0 <= j < all_channels(cs).len() ==> all_channels(outs)[j] & 0xfe == all_channels(
                cs,
            )[j] & 0xfe,
        lsb_seq(all_channels(outs)).subrange(0, bits.len() as int) == bits,
        exists|body: Seq<u8>|
            #[trigger] framed_bits(
                lsb_seq(all_channels(outs)).subrange(0, bits.len() as int),
                message,
                key,
                body,
            ),
        decode_spec(lsb_seq(all_channels(outs)), key) == Ok::<_, StegoError>(message),
{
    let f = all_channels(cs);
    let g = all_channels(outs);
    lemma_embed_flat_facts(f, g, bits);
    let body = choose|body: Seq<u8>| framed_bits(bits, message, key, body);
    lemma_frame_decodes(lsb_seq(g), bits, message, key, body);
}

/// Reads the embedded message back from a carrier set: 40 header bits, a
/// version check, the announced number of body bits, then decryption. Fails
/// exactly as [`decode_spec`] of the carriers' LSB stream says.
#[verifier::spinoff_prover]
pub fn decode(imgs: &Vec<Carrier>, key: &str) -> (r: Result<Vec<u8>, StegoError>)
    requires
        all_channels(imgs@).len() <= usize::MAX,
    ensures
        r matches Ok(p) ==> decode_spec(lsb_seq(all_channels(imgs@)), key@) == Ok::<
            _,
            StegoError,
        >(p@),
        r matches Err(e) ==> decode_spec(lsb_seq(all_channels(imgs@)), key@) == Err::<Seq<u8>, _>(
            e,
        ),
{
    let ghost lsbs = lsb_seq(all_channels(imgs@));
    let mut reader = get_bits_reader_images(imgs);
    let header_bits = match read_bits(imgs, &mut reader, 8 * HEADER_LEN) {
        Ok(b) => b,
        Err(e) => {
            return Err(e);
        },
    };
    proof {
        assert(header_bits@ == lsbs.subrange(0, 40));
    }
    let header = convert_bits_to_bytes(header_bits.as_slice());
    let version = header[0];
    if version != PROTOCOL_VERSION {
        return Err(StegoError::UnsupportedVersion { version });
    }
    let blen: u32 = (header[1] as u32) * 0x1000000 + (header[2] as u32) * 0x10000 + (
    header[3] as u32) * 0x100 + (header[4] as u32);
    proof {
        assert(blen == be32_value(bytes_of_bits(lsbs.subrange(0, 40)).subrange(1, 5)));
    }
    let blen_usize = blen as usize;
    if blen_usize > usize::MAX / 8 {
        proof {
            vstd::arithmetic::div_mod::lemma_fundamental_div_mod(usize::MAX as int, 8);
            assert(lsbs.len() <= usize::MAX < 8 * blen);
        }
        return Err(StegoError::InsufficientData);
    }
    proof {
        vstd::arithmetic::div_mod::lemma_fundamental_div_mod(usize::MAX as int, 8);
    }
    let body_bit_count = blen_usize * 8;
    let body_bits = match read_bits(imgs, &mut reader, body_bit_count) {
        Ok(b) => b,
        Err(e) => {
            return Err(e);
        },
    };
    proof {
        assert(body_bits@ == lsbs.subrange(40, 40 + 8 * blen));
    }
    let body = convert_bits_to_bytes(body_bits.as_slice());
    decrypt(body.as_slice(), key)
}

} // verus!
