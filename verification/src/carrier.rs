//! Carriers and the bit-packing engine: an RGBA raster image is a flat
//! channel buffer (row-major, R,G,B,A), one payload bit per channel LSB.
//! A sequence of carriers is treated as one logical bit address space.

use vstd::prelude::*;

use crate::bits::bitval;
use crate::errors::StegoError;

verus! {

/// An RGBA raster image used to hide bits: `data` holds the flattened
/// channel stream, 4 bytes per pixel.
#[derive(Debug, PartialEq, Eq)]
pub struct Carrier {
    pub width: u32,
    pub height: u32,
    pub data: Vec<u8>,
}

impl Carrier {
    /// The channel buffer holds exactly width * height pixels of 4 bytes.
    pub open spec fn wf(&self) -> bool {
        self.data@.len() == self.width as int * self.height as int * 4
    }

    /// Bit capacity: one bit per channel byte.
    pub fn capacity_bits(&self) -> (r: usize)
        ensures
            r == self.data@.len(),
    {
        self.data.len()
    }
}

/// The least-significant bit of a channel value.
pub open spec fn lsb(c: u8) -> bool {
    c & 1 == 1
}

/// The LSBs of a channel stream, in order.
pub open spec fn lsb_seq(channels: Seq<u8>) -> Seq<bool> {
    Seq::new(channels.len(), |i: int| lsb(channels[i]))
}

/// The concatenated channel streams of the first `k` carriers.
pub open spec fn channels_prefix(cs: Seq<Carrier>, k: int) -> Seq<u8>
    decreases k,
{
    if k <= 0 {
        Seq::empty()
    } else {
        channels_prefix(cs, k - 1) + cs[k - 1].data@
    }
}

/// The concatenated channel streams of all carriers, in order: the one
/// logical bit address space that a carrier set offers.
pub open spec fn all_channels(cs: Seq<Carrier>) -> Seq<u8> {
    channels_prefix(cs, cs.len() as int)
}

/// A shorter carrier prefix contributes no more channels than a longer one.
pub proof fn lemma_prefix_len_monotonic(cs: Seq<Carrier>, a: int, b: int)
    requires
        0 <= a <= b <= cs.len(),
    ensures
        channels_prefix(cs, a).len() <= channels_prefix(cs, b).len(),
    decreases b - a,
{
    if a < b {
        lemma_prefix_len_monotonic(cs, a, b - 1);
    }
}

/// Channel `o` of carrier `k` sits at flat position
/// `channels_prefix(cs, k).len() + o` of any longer prefix.
pub proof fn lemma_prefix_index(cs: Seq<Carrier>, k: int, m: int, o: int)
    requires
        0 <= k < m <= cs.len(),
        0 <= o < cs[k].data@.len(),
    ensures
        channels_prefix(cs, k).len() + o < channels_prefix(cs, m).len(),
        channels_prefix(cs, m)[channels_prefix(cs, k).len() + o] == cs[k].data@[o],
    decreases m - k,
{
    if m == k + 1 {
        assert(channels_prefix(cs, m) == channels_prefix(cs, k) + cs[k].data@);
    } else {
        lemma_prefix_index(cs, k, m - 1, o);
        assert(channels_prefix(cs, m) == channels_prefix(cs, m - 1) + cs[m - 1].data@);
    }
}

/// Replacing carrier `k` by one with the same channel count, all other
/// carriers kept, leaves every prefix length unchanged.
pub proof fn lemma_prefix_len_same(cs1: Seq<Carrier>, cs2: Seq<Carrier>, m: int)
    requires
        cs1.len() == cs2.len(),
        0 <= m <= cs1.len(),
        forall|i: int| 0 <= i < cs1.len() ==> cs1[i].data@.len() == cs2[i].data@.len(),
    ensures
        channels_prefix(cs1, m).len() == channels_prefix(cs2, m).len(),
    decreases m,
{
    if m > 0 {
        lemma_prefix_len_same(cs1, cs2, m - 1);
    }
}

/// The total channel count of a carrier set, saturating at `usize::MAX`.
pub fn total_capacity_bits(imgs: &Vec<Carrier>) -> (r: usize)
    ensures
        all_channels(imgs@).len() <= usize::MAX ==> r == all_channels(imgs@).len(),
        all_channels(imgs@).len() > usize::MAX ==> r == usize::MAX,
{
    let mut acc: usize = 0;
    let mut i: usize = 0;
    while i < imgs.len()
        invariant
            i <= imgs@.len(),
            channels_prefix(imgs@, i as int).len() <= usize::MAX ==> acc == channels_prefix(
                imgs@,
                i as int,
            ).len(),
            channels_prefix(imgs@, i as int).len() > usize::MAX ==> acc == usize::MAX,
        decreases imgs@.len() - i,
    {
        let l = imgs[i].data.len();
        assert(channels_prefix(imgs@, i + 1) == channels_prefix(imgs@, i as int)
            + imgs@[i as int].data@);
        if acc > usize::MAX - l {
            acc = usize::MAX;
        } else {
            acc = acc + l;
        }
        i += 1;
    }
    acc
}

/// Writes bit `i` of `bits` into the LSB of channel `i` of the carrier's
/// flattened channel stream; every other bit of every channel is unchanged.
/// Fails, leaving the carrier untouched, when the bits do not fit.
#[verifier::spinoff_prover]
pub fn set_bits_image(img: &mut Carrier, bits: &[bool]) -> (r: Result<(), StegoError>)
    ensures
        final(img).width == old(img).width,
        final(img).height == old(img).height,
        final(img).data@.len() == old(img).data@.len(),
        r matches Ok(()) <==> bits@.len() <= old(img).data@.len(),
        r matches Err(e) ==> e == (StegoError::MessageTooLarge {
            capacity_bits: old(img).data@.len() as usize,
            required_bits: bits@.len() as usize,
        }) && *final(img) == *old(img),
        r matches Ok(()) ==> forall|i: int|
            0 <= i < bits@.len() ==> final(img).data@[i] == (old(img).data@[i] & 0xfe) | (
            bitval(bits@[i]) as u8),
        r matches Ok(()) ==> forall|i: int|
            0 <= i < bits@.len() ==> lsb(final(img).data@[i]) == bits@[i] && final(img).data@[i]
                & 0xfe == old(img).data@[i] & 0xfe,
        forall|i: int|
            bits@.len() <= i < old(img).data@.len() ==> final(img).data@[i] == old(img).data@[i],
{
    if bits.len() > img.data.len() {
        return Err(
            StegoError::MessageTooLarge {
                capacity_bits: img.data.len(),
                required_bits: bits.len(),
            },
        );
    }
    let ghost orig = img.data@;
    let mut i: usize = 0;
    while i < bits.len()
        invariant
            i <= bits@.len(),
            bits@.len() <= img.data@.len(),
            img.data@.len() == orig.len(),
            img.width == old(img).width,
            img.height == old(img).height,
            forall|k: int|
                0 <= k < i ==> img.data@[k] == (orig[k] & 0xfe) | (bitval(bits@[k]) as u8),
            forall|k: int| i <= k < orig.len() ==> img.data@[k] == orig[k],
        decreases bits@.len() - i,
    {
        let v: u8 = if bits[i] {
            1
        } else {
            0
        };
        let c = img.data[i];
        img.data[i] = (c & 0xfe) | v;
        i += 1;
    }
    proof {
        assert forall|k: int| 0 <= k < bits@.len() implies lsb(img.data@[k]) == bits@[k]
            && img.data@[k] & 0xfe == orig[k] & 0xfe by {
            let c = orig[k];
            let v = bitval(bits@[k]) as u8;
            assert(v == 0 || v == 1);
            assert(((c & 0xfe) | 0u8) & 1 == 0) by (bit_vector);
            assert(((c & 0xfe) | 1u8) & 1 == 1) by (bit_vector);
            assert(((c & 0xfe) | 0u8) & 0xfe == c & 0xfe) by (bit_vector);
            assert(((c & 0xfe) | 1u8) & 0xfe == c & 0xfe) by (bit_vector);
        }
    }
    Ok(())
}

/// A channel value with its LSB replaced by `b`.
pub open spec fn embed_bit(c: u8, b: bool) -> u8 {
    (c & 0xfe) | (bitval(b) as u8)
}

/// A channel stream with the bits of `bits`, starting at flat position
/// `start`, embedded in the LSBs; channels past the end of `bits` are kept.
pub open spec fn embed_into(data: Seq<u8>, bits: Seq<bool>, start: int) -> Seq<u8> {
    Seq::new(
        data.len(),
        |o: int|
            if start + o < bits.len() {
                embed_bit(data[o], bits[start + o])
            } else {
                data[o]
            },
    )
}

/// Embedding a bit sets exactly the LSB and keeps the 7 high bits.
pub proof fn lemma_embed_bit(c: u8, b: bool)
    ensures
        lsb(embed_bit(c, b)) == b,
        embed_bit(c, b) & 0xfe == c & 0xfe,
{
    let v = bitval(b) as u8;
    assert(((c & 0xfe) | 0u8) & 1 == 0) by (bit_vector);
    assert(((c & 0xfe) | 1u8) & 1 == 1) by (bit_vector);
    assert(((c & 0xfe) | 0u8) & 0xfe == c & 0xfe) by (bit_vector);
    assert(((c & 0xfe) | 1u8) & 0xfe == c & 0xfe) by (bit_vector);
}

/// When every carrier of `out` holds its counterpart's channels with the
/// matching slice of `bits` embedded, the flat channel stream of `out` is
/// the flat stream of `cs` with `bits` embedded from position 0.
#[verifier::spinoff_prover]
pub proof fn lemma_flat_embed(cs: Seq<Carrier>, out: Seq<Carrier>, bits: Seq<bool>, m: int)
    requires
        out.len() == cs.len(),
        0 <= m <= cs.len(),
        forall|k: int| 0 <= k < cs.len() ==> out[k].data@.len() == cs[k].data@.len(),
        forall|k: int|
            0 <= k < cs.len() ==> out[k].data@ == embed_into(
                cs[k].data@,
                bits,
                channels_prefix(cs, k).len() as int,
            ),
    ensures
        channels_prefix(out, m) == embed_into(channels_prefix(cs, m), bits, 0),
    decreases m,
{
    if m > 0 {
        lemma_flat_embed(cs, out, bits, m - 1);
        lemma_prefix_len_same(cs, out, m - 1);
        assert(channels_prefix(out, m) == channels_prefix(out, m - 1) + out[m - 1].data@);
        assert(channels_prefix(cs, m) == channels_prefix(cs, m - 1) + cs[m - 1].data@);
        assert(channels_prefix(out, m) =~= embed_into(channels_prefix(cs, m), bits, 0));
    } else {
        assert(channels_prefix(out, 0) =~= embed_into(channels_prefix(cs, 0), bits, 0));
    }
}

/// A cursor over the flattened channel streams of a carrier set:
/// `(carrier index, channel offset within that carrier)`.
pub struct BitReader {
    pub carrier: usize,
    pub offset: usize,
}

impl BitReader {
    /// The cursor points at a channel of `cs`, or one past the end.
    pub open spec fn wf(&self, cs: Seq<Carrier>) -> bool {
        &&& self.carrier <= cs.len()
        &&& self.carrier == cs.len() ==> self.offset == 0
        &&& self.carrier < cs.len() ==> self.offset <= cs[self.carrier as int].data@.len()
    }

    /// The cursor's position in the flat bit address space.
    pub open spec fn abs_pos(&self, cs: Seq<Carrier>) -> int {
        channels_prefix(cs, self.carrier as int).len() + self.offset
    }
}

/// A fresh cursor at the front of the first carrier.
pub fn get_bits_reader_images(imgs: &Vec<Carrier>) -> (r: BitReader)
    ensures
        r.wf(imgs@),
        r.abs_pos(imgs@) == 0,
        r.carrier == 0,
        r.offset == 0,
{
    BitReader { carrier: 0, offset: 0 }
}

/// Pulls `length` channel values from the cursor and returns their LSBs,
/// advancing the cursor. Fails with `InsufficientData`, consuming everything
/// that was left, when the carriers are exhausted before `length` bits are
/// produced.
#[verifier::spinoff_prover]
pub fn read_bits(imgs: &Vec<Carrier>, reader: &mut BitReader, length: usize) -> (r: Result<
    Vec<bool>,
    StegoError,
>)
    requires
        old(reader).wf(imgs@),
    ensures
        final(reader).wf(imgs@),
        r matches Ok(bits) <==> old(reader).abs_pos(imgs@) + length <= all_channels(imgs@).len(),
        r matches Ok(bits) ==> bits@ == lsb_seq(all_channels(imgs@)).subrange(
            old(reader).abs_pos(imgs@),
            old(reader).abs_pos(imgs@) + length,
        ) && final(reader).abs_pos(imgs@) == old(reader).abs_pos(imgs@) + length,
        r matches Err(e) ==> e == StegoError::InsufficientData,
{
    let ghost abs0 = old(reader).abs_pos(imgs@);
    let ghost cs = imgs@;
    proof {
        if reader.carrier < cs.len() {
            assert(channels_prefix(cs, reader.carrier + 1) == channels_prefix(
                cs,
                reader.carrier as int,
            ) + cs[reader.carrier as int].data@);
            lemma_prefix_len_monotonic(cs, reader.carrier + 1, cs.len() as int);
        }
    }
    let mut out: Vec<bool> = Vec::new();
    while out.len() < length
        invariant
            reader.wf(cs),
            cs == imgs@,
            out@.len() <= length,
            reader.abs_pos(cs) == abs0 + out@.len(),
            abs0 == old(reader).abs_pos(imgs@),
            abs0 >= 0,
            forall|j: int| 0 <= j < out@.len() ==> out@[j] == lsb(all_channels(cs)[abs0 + j]),
            reader.abs_pos(cs) <= all_channels(cs).len(),
        decreases length - out@.len(), cs.len() - reader.carrier,
    {
        if reader.carrier >= imgs.len() {
            proof {
                assert(reader.abs_pos(cs) == all_channels(cs).len());
            }
            return Err(StegoError::InsufficientData);
        }
        let l = imgs[reader.carrier].data.len();
        if reader.offset >= l {
            proof {
                assert(channels_prefix(cs, reader.carrier + 1) == channels_prefix(
                    cs,
                    reader.carrier as int,
                ) + cs[reader.carrier as int].data@);
                lemma_prefix_len_monotonic(cs, reader.carrier + 1, cs.len() as int);
            }
            reader.carrier += 1;
            reader.offset = 0;
        } else {
            let ghost k = reader.carrier as int;
            let ghost o = reader.offset as int;
            let c = imgs[reader.carrier].data[reader.offset];
            proof {
                lemma_prefix_index(cs, k, cs.len() as int, o);
                assert(all_channels(cs)[channels_prefix(cs, k).len() + o] == cs[k].data@[o]);
            }
            let ghost prev = out@;
            out.push(c & 1 == 1);
            reader.offset += 1;
            proof {
                let all = all_channels(cs);
                let m = prev.len() as int;
                assert(abs0 + m == channels_prefix(cs, k).len() + o);
                assert(all[abs0 + m] == cs[k].data@[o]);
                assert(out@[m] == lsb(all[abs0 + m]));
            }
        }
    }
    proof {
        assert(out@ =~= lsb_seq(all_channels(cs)).subrange(abs0, abs0 + length));
    }
    Ok(out)
}

} // verus!
