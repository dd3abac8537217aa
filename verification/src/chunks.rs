//! PNG chunk handling: CRC-32, chunk serialization, extraction of ancillary
//! chunks from a source file, and reassembly of an output PNG that keeps
//! every ancillary chunk while the pixel data is regenerated.

use vstd::prelude::*;

use crate::carrier::Carrier;
use crate::codec::{be32_bytes, be32_value, lemma_be32_roundtrip};
use crate::common::append_bytes;
use crate::errors::StegoError;

verus! {

/// One round of the reflected CRC-32 polynomial 0xEDB88320.
pub open spec fn crc_step(c: u32) -> u32 {
    if c & 1 == 1 {
        (c >> 1) ^ 0xEDB88320
    } else {
        c >> 1
    }
}

/// `k` rounds of [`crc_step`].
pub open spec fn crc_steps(c: u32, k: nat) -> u32
    decreases k,
{
    if k == 0 {
        c
    } else {
        crc_steps(crc_step(c), (k - 1) as nat)
    }
}

/// Folds the CRC state over a byte sequence: XOR the byte in, then 8 rounds.
pub open spec fn crc_fold(c: u32, data: Seq<u8>) -> u32
    decreases data.len(),
{
    if data.len() == 0 {
        c
    } else {
        crc_fold(crc_steps(c ^ (data[0] as u32), 8), data.drop_first())
    }
}

/// CRC-32 of a byte sequence: the standard PNG polynomial, reflected, with
/// the all-ones seed and final complement.
pub open spec fn crc32_spec(data: Seq<u8>) -> u32 {
    !crc_fold(0xFFFFFFFFu32, data)
}

/// CRC-32 checksum as PNG uses it.
#[verifier::spinoff_prover]
pub fn crc32(data: &[u8]) -> (r: u32)
    ensures
        r == crc32_spec(data@),
{
    let mut crc: u32 = 0xFFFFFFFF;
    proof {
        assert(data@.subrange(0, data@.len() as int) =~= data@);
    }
    let mut i: usize = 0;
    while i < data.len()
        invariant
            i <= data@.len(),
            crc_fold(crc, data@.subrange(i as int, data@.len() as int)) == crc_fold(
                0xFFFFFFFFu32,
                data@,
            ),
        decreases data@.len() - i,
    {
        let ghost before = data@.subrange(i as int, data@.len() as int);
        let mut c = crc ^ (data[i] as u32);
        let mut j: usize = 0;
        while j < 8
            invariant
                j <= 8,
                c == crc_steps(crc ^ (data@[i as int] as u32), j as nat),
        decreases 8 - j,
        {
            proof {
                assert(c & 1 == 0 || c & 1 == 1) by (bit_vector);
            }
            if c & 1 != 0 {
                c = (c >> 1) ^ 0xEDB88320;
            } else {
                c = c >> 1;
            }
            proof {
                lemma_crc_steps_unfold(crc ^ (data@[i as int] as u32), j as nat);
            }
            j += 1;
        }
        crc = c;
        i += 1;
        proof {
            assert(before.drop_first() =~= data@.subrange(i as int, data@.len() as int));
        }
    }
    proof {
        assert(data@.subrange(data@.len() as int, data@.len() as int) =~= Seq::<u8>::empty());
    }
    !crc
}

/// Applying one more round after `k` rounds is the same as `k + 1` rounds.
proof fn lemma_crc_steps_unfold(c: u32, k: nat)
    ensures
        crc_steps(c, k + 1) == crc_step(crc_steps(c, k)),
    decreases k,
{
    reveal_with_fuel(crc_steps, 2);
    if k > 0 {
        lemma_crc_steps_unfold(crc_step(c), (k - 1) as nat);
    }
}

/// A PNG chunk: a 4-byte type tag and its payload. The CRC is not stored;
/// it is recomputed whenever the chunk is written.
#[derive(Debug, PartialEq, Eq)]
pub struct PngChunk {
    pub chunk_type: Vec<u8>,
    pub data: Vec<u8>,
}

impl PngChunk {
    /// A chunk tag is exactly 4 bytes.
    pub open spec fn wf(&self) -> bool {
        self.chunk_type@.len() == 4
    }

    /// CRC-32 over the chunk's type tag followed by its payload.
    pub fn calculate_crc(&self) -> (r: u32)
        ensures
            r == crc32_spec(self.chunk_type@ + self.data@),
    {
        let mut crc_data: Vec<u8> = Vec::new();
        append_bytes(&mut crc_data, self.chunk_type.as_slice());
        append_bytes(&mut crc_data, self.data.as_slice());
        crc32(crc_data.as_slice())
    }

    /// Appends the chunk's wire form to `out`: big-endian payload length,
    /// type tag, payload, and a freshly computed big-endian CRC-32.
    pub fn write(&self, out: &mut Vec<u8>)
        requires
            self.wf(),
            self.data@.len() <= u32::MAX,
        ensures
            final(out)@ == old(out)@ + chunk_ser(self.chunk_type@, self.data@),
    {
        push_be32(out, self.data.len() as u32);
        append_bytes(out, self.chunk_type.as_slice());
        append_bytes(out, self.data.as_slice());
        let crc = self.calculate_crc();
        push_be32(out, crc);
        proof {
            assert(out@ =~= old(out)@ + chunk_ser(self.chunk_type@, self.data@));
        }
    }
}

/// The wire form of a chunk: length, tag, payload, CRC-32 over tag and
/// payload. Meaningful for `t.len() == 4` and `d.len() <= u32::MAX`.
pub open spec fn chunk_ser(t: Seq<u8>, d: Seq<u8>) -> Seq<u8> {
    be32_bytes(d.len() as u32) + t + d + be32_bytes(crc32_spec(t + d))
}

/// Appends the 4 big-endian bytes of `n` to `out`.
pub fn push_be32(out: &mut Vec<u8>, n: u32)
    ensures
        final(out)@ == old(out)@ + be32_bytes(n),
{
    out.push((n / 0x1000000) as u8);
    out.push(((n / 0x10000) % 0x100) as u8);
    out.push(((n / 0x100) % 0x100) as u8);
    out.push((n % 0x100) as u8);
    proof {
        assert(out@ =~= old(out)@ + be32_bytes(n));
    }
}

/// The 8-byte PNG file signature.
pub open spec fn png_signature() -> Seq<u8> {
    seq![137u8, 80u8, 78u8, 71u8, 13u8, 10u8, 26u8, 10u8]
}

/// Tag of the image-header chunk.
pub open spec fn tag_ihdr() -> Seq<u8> {
    seq![73u8, 72u8, 68u8, 82u8]
}

/// Tag of an image-data chunk.
pub open spec fn tag_idat() -> Seq<u8> {
    seq![73u8, 68u8, 65u8, 84u8]
}

/// Tag of the trailer chunk.
pub open spec fn tag_iend() -> Seq<u8> {
    seq![73u8, 69u8, 78u8, 68u8]
}

/// Tag of the palette chunk.
pub open spec fn tag_plte() -> Seq<u8> {
    seq![80u8, 76u8, 84u8, 69u8]
}

/// The ancillary chunks of the chunk stream of `s` starting at `pos`, as
/// `(tag, payload)` pairs in stream order. Pixel-bearing chunks (IHDR, IDAT,
/// PLTE) are dropped; IEND or a clean end of input stops the walk; `None`
/// means a chunk is cut short.
pub open spec fn parse_ancillary(s: Seq<u8>, pos: int) -> Option<Seq<(Seq<u8>, Seq<u8>)>>
    decreases s.len() - pos,
{
    if pos + 4 > s.len() {
        Some(Seq::empty())
    } else {
        let l = be32_value(s.subrange(pos, pos + 4));
        if pos + 12 + l > s.len() {
            None
        } else {
            let t = s.subrange(pos + 4, pos + 8);
            let d = s.subrange(pos + 8, pos + 8 + l);
            if t == tag_iend() {
                Some(Seq::empty())
            } else if t == tag_ihdr() || t == tag_idat() || t == tag_plte() {
                parse_ancillary(s, pos + 12 + l)
            } else {
                match parse_ancillary(s, pos + 12 + l) {
                    None => None,
                    Some(rest) => Some(seq![(t, d)] + rest),
                }
            }
        }
    }
}

/// The `(tag, payload)` views of a chunk list.
pub open spec fn chunk_views(cs: Seq<PngChunk>) -> Seq<(Seq<u8>, Seq<u8>)> {
    cs.map_values(|c: PngChunk| (c.chunk_type@, c.data@))
}

/// Reads the big-endian 32-bit value at `pos`.
fn read_be32(s: &[u8], pos: usize) -> (r: u32)
    requires
        pos + 4 <= s@.len(),
    ensures
        r == be32_value(s@.subrange(pos as int, pos as int + 4)),
{
    (s[pos] as u32) * 0x1000000 + (s[pos + 1] as u32) * 0x10000 + (s[pos + 2] as u32) * 0x100 + (
    s[pos + 3] as u32)
}

/// Walks a source file's chunk stream and keeps every ancillary chunk, in
/// order, with pixel-bearing chunks dropped. Returns `Ok(None)` when the
/// file does not start with the PNG signature (no preservation possible),
/// and `TruncatedInput` when a chunk is cut short.
#[verifier::spinoff_prover]
pub fn extract_ancillary_chunks(file: &[u8]) -> (r: Result<Option<Vec<PngChunk>>, StegoError>)
    ensures
        !(file@.len() >= 8 && file@.subrange(0, 8) == png_signature()) ==> r == Ok::<
            Option<Vec<PngChunk>>,
            StegoError,
        >(None),
        (file@.len() >= 8 && file@.subrange(0, 8) == png_signature() && parse_ancillary(file@, 8)
            is None) ==> r == Err::<Option<Vec<PngChunk>>, _>(StegoError::TruncatedInput),
        (file@.len() >= 8 && file@.subrange(0, 8) == png_signature() && parse_ancillary(file@, 8)
            is Some) ==> (r matches Ok(o) && o matches Some(v) && Some(chunk_views(v@))
            == parse_ancillary(file@, 8) && (forall|i: int|
            0 <= i < v@.len() ==> (#[trigger] v@[i]).wf() && v@[i].data@.len() <= u32::MAX)),
{
    if file.len() < 8 {
        return Ok(None);
    }
    let sig_ok = file[0] == 137 && file[1] == 80 && file[2] == 78 && file[3] == 71 && file[4]
        == 13 && file[5] == 10 && file[6] == 26 && file[7] == 10;
    if !sig_ok {
        proof {
            assert(file@.subrange(0, 8) != png_signature());
        }
        return Ok(None);
    }
    proof {
        assert(file@.subrange(0, 8) =~= png_signature());
    }
    let mut out: Vec<PngChunk> = Vec::new();
    let mut pos: usize = 8;
    loop
        invariant
            8 <= pos <= file@.len(),
            parse_ancillary(file@, 8) == match parse_ancillary(file@, pos as int) {
                None => None::<Seq<(Seq<u8>, Seq<u8>)>>,
                Some(rest) => Some(chunk_views(out@) + rest),
            },
            forall|i: int|
                0 <= i < out@.len() ==> (#[trigger] out@[i]).wf() && out@[i].data@.len()
                    <= u32::MAX,
            file@.len() >= 8 && file@.subrange(0, 8) == png_signature(),
        decreases file@.len() - pos,
    {
        let remaining = file.len() - pos;
        if remaining < 4 {
            proof {
                assert(parse_ancillary(file@, pos as int) == Some(Seq::<(Seq<u8>, Seq<u8>)>::empty()));
                assert(chunk_views(out@) + Seq::<(Seq<u8>, Seq<u8>)>::empty() =~= chunk_views(
                    out@,
                ));
            }
            return Ok(Some(out));
        }
        let l = read_be32(file, pos);
        let l_usize = l as usize;
        if remaining < 12 || l_usize > remaining - 12 {
            proof {
                assert(parse_ancillary(file@, pos as int) is None);
            }
            return Err(StegoError::TruncatedInput);
        }
        let t0 = file[pos + 4];
        let t1 = file[pos + 5];
        let t2 = file[pos + 6];
        let t3 = file[pos + 7];
        let ghost t = file@.subrange(pos + 4, pos + 8);
        proof {
            assert(t[0] == t0 && t[1] == t1 && t[2] == t2 && t[3] == t3);
        }
        let next = pos + 12 + l_usize;
        if t0 == 73 && t1 == 69 && t2 == 78 && t3 == 68 {
            // IEND: the stream ends here
            proof {
                assert(t =~= tag_iend());
                assert(chunk_views(out@) + Seq::<(Seq<u8>, Seq<u8>)>::empty() =~= chunk_views(
                    out@,
                ));
            }
            return Ok(Some(out));
        }
        let critical = (t0 == 73 && t1 == 72 && t2 == 68 && t3 == 82) || (t0 == 73 && t1 == 68
            && t2 == 65 && t3 == 84) || (t0 == 80 && t1 == 76 && t2 == 84 && t3 == 69);
        if critical {
            proof {
                assert(t != tag_iend());
                assert(t =~= tag_ihdr() || t =~= tag_idat() || t =~= tag_plte());
            }
            pos = next;
        } else {
            proof {
                assert(t != tag_iend() && t != tag_ihdr() && t != tag_idat() && t != tag_plte());
            }
            let mut tag: Vec<u8> = Vec::new();
            tag.push(t0);
            tag.push(t1);
            tag.push(t2);
            tag.push(t3);
            let data = crate::common::copy_bytes(
                vstd::slice::slice_subrange(file, pos + 8, pos + 8 + l_usize),
            );
            let ghost d = file@.subrange(pos as int + 8, pos as int + 8 + l as int);
            let chunk = PngChunk { chunk_type: tag, data };
            proof {
                assert(chunk.chunk_type@ =~= t);
                assert(chunk.data@ == d);
            }
            let ghost old_out = out@;
            out.push(chunk);
            proof {
                assert(chunk_views(out@) =~= chunk_views(old_out) + seq![(t, d)]);
                if parse_ancillary(file@, next as int) is Some {
                    let rest = parse_ancillary(file@, next as int)->Some_0;
                    assert(chunk_views(old_out) + (seq![(t, d)] + rest) =~= chunk_views(out@)
                        + rest);
                }
            }
            pos = next;
        }
    }
}

/// What the PNG encoder produces for an RGBA pixel buffer of the given
/// dimensions: a complete PNG byte stream. The result is a function of the
/// three arguments alone.
pub uninterp spec fn png_encoding(width: u32, height: u32, pixels: Seq<u8>) -> Seq<u8>;

/// The byte stream opens with the 8-byte PNG signature and a regenerated
/// IHDR chunk for an image of the given size: 13 payload bytes holding the
/// big-endian width and height, bit depth 8, color type 6 (RGBA), and zero
/// compression, filter and interlace methods. The IHDR chunk ends at byte
/// 33; at least image data and a 12-byte IEND trailer follow.
pub open spec fn has_fresh_header(v: Seq<u8>, width: u32, height: u32) -> bool {
    &&& v.len() >= 45
    &&& v.subrange(0, 8) == png_signature()
    &&& v.subrange(8, 12) == be32_bytes(13)
    &&& v.subrange(12, 16) == tag_ihdr()
    &&& v.subrange(16, 20) == be32_bytes(width)
    &&& v.subrange(20, 24) == be32_bytes(height)
    &&& v.subrange(24, 29) == seq![8u8, 6u8, 0u8, 0u8, 0u8]
}

/// Relies on png's `Encoder` writing into a byte vector with RGBA color and
/// 8-bit depth: for nonzero dimensions and a matching buffer size it
/// succeeds, and it emits the 8-byte PNG signature, then an IHDR chunk whose
/// 13 payload bytes hold the big-endian width and height, depth 8, color
/// type 6 (RGBA) and zero compression, filter and interlace methods, then
/// image data and a 12-byte IEND trailer.
#[verifier::external_body]
fn encode_rgba_png(img: &Carrier) -> (r: Result<Vec<u8>, StegoError>)
    requires
        img.wf(),
        img.width >= 1,
        img.height >= 1,
    ensures
        r matches Ok(v) ==> v@ == png_encoding(img.width, img.height, img.data@)
            && has_fresh_header(v@, img.width, img.height),
        r matches Ok(_),
{
    let mut buffer: Vec<u8> = Vec::new();
    {
        let mut encoder = png::Encoder::new(&mut buffer, img.width, img.height);
        encoder.set_color(png::ColorType::Rgba);
        encoder.set_depth(png::BitDepth::Eight);
        let mut writer = match encoder.write_header() {
            Ok(w) => w,
            Err(_) => return Err(StegoError::PngEncodingFailed),
        };
        if writer.write_image_data(img.data.as_slice()).is_err() {
            return Err(StegoError::PngEncodingFailed);
        }
    }
    Ok(buffer)
}

/// The wire form of a chunk list: each chunk's serialization, in order.
pub open spec fn chunks_bytes(cvs: Seq<(Seq<u8>, Seq<u8>)>) -> Seq<u8>
    decreases cvs.len(),
{
    if cvs.len() == 0 {
        Seq::empty()
    } else {
        chunks_bytes(cvs.drop_last()) + chunk_ser(cvs.last().0, cvs.last().1)
    }
}

/// A fresh PNG encoding with a chunk list spliced in right after the IHDR
/// chunk, which always occupies bytes 8..33 of an encoder's output.
pub open spec fn spliced_png(enc: Seq<u8>, mid: Seq<u8>) -> Seq<u8> {
    enc.subrange(0, 33) + mid + enc.subrange(33, enc.len() as int)
}

/// Writes the output PNG: signature, fresh IHDR, then every chunk of
/// `chunks` in order with a freshly computed CRC, then the fresh image data
/// and trailer. Only the pixel-bearing chunks are regenerated; everything in
/// `chunks` is emitted verbatim between IHDR and IDAT.
#[verifier::spinoff_prover]
pub fn write_png(img: &Carrier, chunks: &Vec<PngChunk>) -> (r: Result<Vec<u8>, StegoError>)
    requires
        img.wf(),
        img.width >= 1,
        img.height >= 1,
        forall|i: int|
            0 <= i < chunks@.len() ==> (#[trigger] chunks@[i]).wf() && chunks@[i].data@.len()
                <= u32::MAX,
    ensures
        r matches Ok(v) ==> v@ == spliced_png(
            png_encoding(img.width, img.height, img.data@),
            chunks_bytes(chunk_views(chunks@)),
        ),
        r matches Ok(v) ==> has_fresh_header(v@, img.width, img.height),
        r matches Ok(_),
{
    let enc = match encode_rgba_png(img) {
        Ok(v) => v,
        Err(_) => unreached(),
    };
    let ihdr_len = read_be32(enc.as_slice(), 8);
    proof {
        lemma_be32_roundtrip(13);
        assert(ihdr_len == 13);
    }
    let ihdr_end = 8 + 4 + 4 + (ihdr_len as usize) + 4;
    let mut out: Vec<u8> = Vec::new();
    append_bytes(&mut out, vstd::slice::slice_subrange(enc.as_slice(), 0, ihdr_end));
    let ghost cvs = chunk_views(chunks@);
    let mut i: usize = 0;
    while i < chunks.len()
        invariant
            i <= chunks@.len(),
            cvs == chunk_views(chunks@),
            enc@.len() >= 45,
            out@ == enc@.subrange(0, 33) + chunks_bytes(cvs.subrange(0, i as int)),
            forall|k: int|
                0 <= k < chunks@.len() ==> (#[trigger] chunks@[k]).wf() && chunks@[k].data@.len()
                    <= u32::MAX,
        decreases chunks@.len() - i,
    {
        let ghost before = out@;
        chunks[i].write(&mut out);
        proof {
            let pre = cvs.subrange(0, i as int);
            let post = cvs.subrange(0, i as int + 1);
            assert(post.drop_last() =~= pre);
            assert(post.last() == (chunks@[i as int].chunk_type@, chunks@[i as int].data@));
            assert(chunks_bytes(post) == chunks_bytes(pre) + chunk_ser(
                chunks@[i as int].chunk_type@,
                chunks@[i as int].data@,
            ));
            assert(out@ =~= enc@.subrange(0, 33) + chunks_bytes(post));
        }
        i += 1;
    }
    append_bytes(&mut out, vstd::slice::slice_subrange(enc.as_slice(), 33, enc.len()));
    proof {
        assert(cvs.subrange(0, chunks@.len() as int) =~= cvs);
        assert(out@ =~= spliced_png(enc@, chunks_bytes(cvs)));
        // the spliced stream keeps the encoder's first 33 bytes, so the
        // fresh signature and IHDR facts carry over
        assert(out@.len() >= enc@.len());
        assert(out@.subrange(0, 8) =~= enc@.subrange(0, 8));
        assert(out@.subrange(8, 12) =~= enc@.subrange(8, 12));
        assert(out@.subrange(12, 16) =~= enc@.subrange(12, 16));
        assert(out@.subrange(16, 20) =~= enc@.subrange(16, 20));
        assert(out@.subrange(20, 24) =~= enc@.subrange(20, 24));
        assert(out@.subrange(24, 29) =~= enc@.subrange(24, 29));
    }
    Ok(out)
}

/// Tag of the private ancillary chunk that carries a carrier's place in a
/// multi-carrier set: ancillary, private, safe to copy.
pub open spec fn sequence_chunk_type() -> Seq<u8> {
    seq![115u8, 113u8, 78u8, 111u8]
}

/// The sequence-metadata chunk for carrier `index` of `total`: its payload
/// is the two values, each in 4 big-endian bytes.
pub fn build_sequence_chunk(index: u32, total: u32) -> (r: PngChunk)
    ensures
        r.wf(),
        r.chunk_type@ == sequence_chunk_type(),
        r.data@ == be32_bytes(index) + be32_bytes(total),
        r.data@.len() == 8,
{
    let mut tag: Vec<u8> = Vec::new();
    tag.push(115);
    tag.push(113);
    tag.push(78);
    tag.push(111);
    let mut data: Vec<u8> = Vec::new();
    push_be32(&mut data, index);
    push_be32(&mut data, total);
    proof {
        assert(tag@ =~= sequence_chunk_type());
    }
    PngChunk { chunk_type: tag, data }
}

/// The `(index, total)` carried by the first sequence-metadata chunk of a
/// chunk list, or `None` when no well-formed one is present.
pub open spec fn sequence_info_spec(cs: Seq<PngChunk>) -> Option<(u32, u32)>
    decreases cs.len(),
{
    if cs.len() == 0 {
        None
    } else if cs[0].chunk_type@ == sequence_chunk_type() && cs[0].data@.len() == 8 {
        Some(
            (
                be32_value(cs[0].data@.subrange(0, 4)) as u32,
                be32_value(cs[0].data@.subrange(4, 8)) as u32,
            ),
        )
    } else {
        sequence_info_spec(cs.drop_first())
    }
}

/// Finds the first sequence-metadata chunk of a chunk list and reads the
/// carrier's `(index, total)` out of it.
pub fn read_sequence_info(chunks: &Vec<PngChunk>) -> (r: Option<(u32, u32)>)
    ensures
        r == sequence_info_spec(chunks@),
{
    let n = chunks.len();
    proof {
        assert(chunks@.subrange(0, n as int) =~= chunks@);
    }
    let mut i: usize = 0;
    while i < n
        invariant
            i <= n,
            n == chunks@.len(),
            sequence_info_spec(chunks@) == sequence_info_spec(
                chunks@.subrange(i as int, n as int),
            ),
        decreases n - i,
    {
        let ghost suffix = chunks@.subrange(i as int, n as int);
        let ct = &chunks[i].chunk_type;
        let is_seq = ct.len() == 4 && ct[0] == 115 && ct[1] == 113 && ct[2] == 78 && ct[3] == 111
            && chunks[i].data.len() == 8;
        proof {
            assert(suffix[0] == chunks@[i as int]);
            if is_seq {
                assert(chunks@[i as int].chunk_type@ =~= sequence_chunk_type());
            } else {
                assert(!(chunks@[i as int].chunk_type@ == sequence_chunk_type()
                    && chunks@[i as int].data@.len() == 8));
            }
        }
        if is_seq {
            let index = read_be32(chunks[i].data.as_slice(), 0);
            let total = read_be32(chunks[i].data.as_slice(), 4);
            proof {
                assert(chunks@[i as int].data@.subrange(0, 4) =~= chunks@[i as int].data@.subrange(
                    0 as int,
                    0 as int + 4,
                ));
            }
            return Some((index, total));
        }
        proof {
            assert(suffix.drop_first() =~= chunks@.subrange(i as int + 1, n as int));
        }
        i += 1;
    }
    proof {
        assert(chunks@.subrange(n as int, n as int) =~= Seq::<PngChunk>::empty());
    }
    None
}

/// The sequence index a decoder sorts by; meaningful where the info is
/// present.
pub open spec fn seq_idx(o: Option<(u32, u32)>) -> int {
    match o {
        Some(p) => p.0 as int,
        None => -1,
    }
}

/// Decides the decode order of a carrier set from its sequence metadata:
/// when every carrier carries it, the result lists the carriers' positions
/// in ascending order of their embedded index; when any lacks it, `None`,
/// and the caller's order stands for the whole set.
#[verifier::spinoff_prover]
pub fn order_by_sequence(infos: &Vec<Option<(u32, u32)>>) -> (r: Option<Vec<usize>>)
    ensures
        (r is Some) <==> (forall|i: int| 0 <= i < infos@.len() ==> (#[trigger] infos@[i]) is Some),
        r matches Some(p) ==> {
            &&& p@.len() == infos@.len()
            &&& forall|k: int| 0 <= k < p@.len() ==> (#[trigger] p@[k]) < infos@.len()
            &&& forall|k1: int, k2: int| 0 <= k1 < k2 < p@.len() ==> p@[k1] != p@[k2]
            &&& forall|k1: int, k2: int|
                0 <= k1 < k2 < p@.len() ==> seq_idx(infos@[p@[k1] as int]) <= seq_idx(
                    infos@[p@[k2] as int],
                )
        },
{
    let n = infos.len();
    let mut i: usize = 0;
    while i < n
        invariant
            i <= n,
            n == infos@.len(),
            forall|j: int| 0 <= j < i ==> (#[trigger] infos@[j]) is Some,
        decreases n - i,
    {
        if infos[i].is_none() {
            return None;
        }
        i += 1;
    }
    let mut p: Vec<usize> = Vec::new();
    let mut k: usize = 0;
    while k < n
        invariant
            k <= n,
            p@.len() == k,
            forall|j: int| 0 <= j < k ==> p@[j] == j,
        decreases n - k,
    {
        p.push(k);
        k += 1;
    }
    let mut s: usize = 0;
    while s < n
        invariant
            s <= n,
            n == infos@.len(),
            p@.len() == n,
            forall|j: int| 0 <= j < infos@.len() ==> (#[trigger] infos@[j]) is Some,
            forall|j: int| 0 <= j < n ==> (#[trigger] p@[j]) < n,
            forall|j1: int, j2: int| 0 <= j1 < j2 < n ==> p@[j1] != p@[j2],
            forall|j1: int, j2: int|
                0 <= j1 < j2 < s ==> seq_idx(infos@[p@[j1] as int]) <= seq_idx(
                    infos@[p@[j2] as int],
                ),
            forall|j1: int, j2: int|
                0 <= j1 < s <= j2 < n ==> seq_idx(infos@[p@[j1] as int]) <= seq_idx(
                    infos@[p@[j2] as int],
                ),
        decreases n - s,
    {
        let mut m: usize = s;
        let mut j: usize = s + 1;
        while j < n
            invariant
                s <= m < j <= n,
                n == infos@.len(),
                p@.len() == n,
                forall|q: int| 0 <= q < infos@.len() ==> (#[trigger] infos@[q]) is Some,
                forall|q: int| 0 <= q < n ==> (#[trigger] p@[q]) < n,
                forall|q: int|
                    s <= q < j ==> seq_idx(infos@[p@[m as int] as int]) <= seq_idx(
                        infos@[p@[q] as int],
                    ),
            decreases n - j,
        {
            let a = match infos[p[j]] {
                Some(v) => v.0,
                None => unreached(),
            };
            let b = match infos[p[m]] {
                Some(v) => v.0,
                None => unreached(),
            };
            if a < b {
                m = j;
            }
            j += 1;
        }
        let pm = p[m];
        let ps = p[s];
        p[s] = pm;
        p[m] = ps;
        s += 1;
    }
    Some(p)
}

/// When the embedded sequence indices are exactly `0 .. n-1`, the order
/// [`order_by_sequence`] returns puts the carrier with index `k` at place
/// `k`: sorting by sequence metadata recovers the encode-time order,
/// whatever order the carriers were supplied in.
#[verifier::spinoff_prover]
pub proof fn lemma_sequence_order_recovers(infos: Seq<Option<(u32, u32)>>, p: Seq<usize>)
    requires
        p.len() == infos.len(),
        forall|i: int| 0 <= i < infos.len() ==> (#[trigger] infos[i]) is Some,
        forall|k: int| 0 <= k < p.len() ==> (#[trigger] p[k]) < infos.len(),
        forall|k1: int, k2: int| 0 <= k1 < k2 < p.len() ==> p[k1] != p[k2],
        forall|k1: int, k2: int|
            0 <= k1 < k2 < p.len() ==> seq_idx(infos[p[k1] as int]) <= seq_idx(
                infos[p[k2] as int],
            ),
        forall|i: int| 0 <= i < infos.len() ==> 0 <= #[trigger] seq_idx(infos[i]) < infos.len(),
        forall|i: int, j: int|
            0 <= i < j < infos.len() ==> seq_idx(infos[i]) != seq_idx(infos[j]),
    ensures
        forall|k: int| 0 <= k < p.len() ==> seq_idx(infos[p[k] as int]) == k,
{
    let n = p.len() as int;
    assert forall|k1: int, k2: int| 0 <= k1 < k2 < n implies seq_idx(infos[p[k1] as int])
        < seq_idx(infos[p[k2] as int]) by {
        if (p[k1] as int) < (p[k2] as int) {
            assert(seq_idx(infos[p[k1] as int]) != seq_idx(infos[p[k2] as int]));
        } else {
            assert(seq_idx(infos[p[k2] as int]) != seq_idx(infos[p[k1] as int]));
        }
    }
    assert forall|k: int| 0 <= k < n implies seq_idx(infos[p[k] as int]) >= k by {
        lemma_strict_chain_lower(infos, p, k);
    }
    assert forall|k: int| 0 <= k < n implies seq_idx(infos[p[k] as int]) <= k by {
        lemma_strict_chain_upper(infos, p, k);
    }
}

/// Decoding does not depend on the order carriers are supplied in, as long
/// as every one carries its sequence metadata: when each supplied carrier is
/// `original[perm[i]]` and announces `perm[i]` as its index, reordering the
/// supplied list by [`order_by_sequence`]'s result restores `original`.
pub proof fn lemma_reorder_by_sequence(
    original: Seq<Carrier>,
    supplied: Seq<Carrier>,
    perm: Seq<usize>,
    infos: Seq<Option<(u32, u32)>>,
    p: Seq<usize>,
)
    requires
        supplied.len() == original.len(),
        perm.len() == original.len(),
        infos.len() == original.len(),
        p.len() == original.len(),
        forall|i: int| 0 <= i < perm.len() ==> (#[trigger] perm[i]) < original.len(),
        forall|i: int, j: int| 0 <= i < j < perm.len() ==> perm[i] != perm[j],
        forall|i: int| 0 <= i < supplied.len() ==> supplied[i] == original[perm[i] as int],
        forall|i: int| 0 <= i < infos.len() ==> seq_idx(#[trigger] infos[i]) == perm[i],
        forall|i: int| 0 <= i < infos.len() ==> (#[trigger] infos[i]) is Some,
        forall|k: int| 0 <= k < p.len() ==> (#[trigger] p[k]) < infos.len(),
        forall|k1: int, k2: int| 0 <= k1 < k2 < p.len() ==> p[k1] != p[k2],
        forall|k1: int, k2: int|
            0 <= k1 < k2 < p.len() ==> seq_idx(infos[p[k1] as int]) <= seq_idx(
                infos[p[k2] as int],
            ),
    ensures
        forall|k: int| 0 <= k < p.len() ==> supplied[p[k] as int] == original[k],
{
    lemma_sequence_order_recovers(infos, p);
    assert forall|k: int| 0 <= k < p.len() implies supplied[p[k] as int] == original[k] by {
        assert(seq_idx(infos[p[k] as int]) == k);
        assert(perm[p[k] as int] as int == k);
    }
}

/// In a strictly ascending chain, the `k`-th value is at least `k`.
proof fn lemma_strict_chain_lower(infos: Seq<Option<(u32, u32)>>, p: Seq<usize>, k: int)
    requires
        p.len() == infos.len(),
        0 <= k < p.len(),
        forall|k1: int, k2: int|
            0 <= k1 < k2 < p.len() ==> seq_idx(infos[p[k1] as int]) <= seq_idx(
                infos[p[k2] as int],
            ),
        forall|k1: int, k2: int| 0 <= k1 < k2 < p.len() ==> p[k1] != p[k2],
        forall|k1: int| 0 <= k1 < p.len() ==> (#[trigger] p[k1]) < infos.len(),
        forall|i: int| 0 <= i < infos.len() ==> 0 <= #[trigger] seq_idx(infos[i]) < infos.len(),
        forall|i: int, j: int|
            0 <= i < j < infos.len() ==> seq_idx(infos[i]) != seq_idx(infos[j]),
    ensures
        seq_idx(infos[p[k] as int]) >= k,
    decreases k,
{
    if k > 0 {
        lemma_strict_chain_lower(infos, p, k - 1);
        let a = seq_idx(infos[p[k - 1] as int]);
        let b = seq_idx(infos[p[k] as int]);
        assert(a <= b);
        if (p[k - 1] as int) < (p[k] as int) {
            assert(a != b);
        } else {
            assert(b != a);
        }
    }
}

/// In a strictly ascending chain of values below `n`, the `k`-th value is at
/// most `k`.
proof fn lemma_strict_chain_upper(infos: Seq<Option<(u32, u32)>>, p: Seq<usize>, k: int)
    requires
        p.len() == infos.len(),
        0 <= k < p.len(),
        forall|k1: int, k2: int|
            0 <= k1 < k2 < p.len() ==> seq_idx(infos[p[k1] as int]) <= seq_idx(
                infos[p[k2] as int],
            ),
        forall|k1: int, k2: int| 0 <= k1 < k2 < p.len() ==> p[k1] != p[k2],
        forall|k1: int| 0 <= k1 < p.len() ==> (#[trigger] p[k1]) < infos.len(),
        forall|i: int| 0 <= i < infos.len() ==> 0 <= #[trigger] seq_idx(infos[i]) < infos.len(),
        forall|i: int, j: int|
            0 <= i < j < infos.len() ==> seq_idx(infos[i]) != seq_idx(infos[j]),
    ensures
        seq_idx(infos[p[k] as int]) <= k,
    decreases p.len() - k,
{
    if k < p.len() - 1 {
        lemma_strict_chain_upper(infos, p, k + 1);
        let a = seq_idx(infos[p[k] as int]);
        let b = seq_idx(infos[p[k + 1] as int]);
        assert(a <= b);
        if (p[k] as int) < (p[k + 1] as int) {
            assert(a != b);
        } else {
            assert(b != a);
        }
    }
}

/// The `(tag, payload)` pairs an output file carries between IHDR and IDAT:
/// the source file's ancillary chunks (none when the source is not a PNG),
/// with the sequence-metadata chunk appended when one is requested. `None`
/// when the source is a PNG whose chunk stream is cut short.
pub open spec fn output_chunk_views(src: Seq<u8>, seqinfo: Option<(u32, u32)>) -> Option<
    Seq<(Seq<u8>, Seq<u8>)>,
> {
    let base = if src.len() >= 8 && src.subrange(0, 8) == png_signature() {
        parse_ancillary(src, 8)
    } else {
        Some(Seq::empty())
    };
    match base {
        None => None,
        Some(b) => Some(
            b + match seqinfo {
                None => Seq::empty(),
                Some(st) => seq![
                    (sequence_chunk_type(), be32_bytes(st.0) + be32_bytes(st.1)),
                ],
            },
        ),
    }
}

/// Assembles the complete output PNG for a carrier: the source file's
/// ancillary chunks are preserved in order between the fresh IHDR and IDAT,
/// a sequence-metadata chunk is appended when requested, and every chunk
/// gets a freshly computed CRC. A source that is not a PNG yields a bare
/// carrier-only PNG; a source PNG with a truncated chunk fails.
pub fn build_output_png(
    img: &Carrier,
    source_bytes: &[u8],
    sequence_info: Option<(u32, u32)>,
) -> (r: Result<Vec<u8>, StegoError>)
    requires
        img.wf(),
        img.width >= 1,
        img.height >= 1,
    ensures
        (r matches Ok(_)) <==> (output_chunk_views(source_bytes@, sequence_info) is Some),
        r matches Ok(v) ==> v@ == spliced_png(
            png_encoding(img.width, img.height, img.data@),
            chunks_bytes(output_chunk_views(source_bytes@, sequence_info)->Some_0),
        ),
        r matches Ok(v) ==> has_fresh_header(v@, img.width, img.height),
        r matches Err(e) ==> e == StegoError::TruncatedInput,
{
    let mut chunks: Vec<PngChunk> = match extract_ancillary_chunks(source_bytes) {
        Ok(Some(v)) => v,
        Ok(None) => Vec::new(),
        Err(e) => {
            return Err(e);
        },
    };
    let ghost base = chunk_views(chunks@);
    if let Some((index, total)) = sequence_info {
        let chunk = build_sequence_chunk(index, total);
        chunks.push(chunk);
    }
    proof {
        assert(chunk_views(chunks@) =~= output_chunk_views(source_bytes@, sequence_info)->Some_0);
    }
    match write_png(img, &chunks) {
        Ok(v) => Ok(v),
        Err(_) => unreached(),
    }
}

} // verus!
