//! Capacity planning: does a bit sequence fit the carriers at hand, and is
//! the requested output path one that keeps the hidden bits intact?

use vstd::prelude::*;

use crate::carrier::{all_channels, Carrier};
use crate::errors::StegoError;

verus! {

/// Appends every byte of `src` to `dst`, in order.
pub fn append_bytes(dst: &mut Vec<u8>, src: &[u8])
    ensures
        final(dst)@ == old(dst)@ + src@,
{
    let mut i: usize = 0;
    while i < src.len()
        invariant
            i <= src@.len(),
            dst@ == old(dst)@ + src@.subrange(0, i as int),
        decreases src@.len() - i,
    {
        dst.push(src[i]);
        proof {
            assert(dst@ =~= old(dst)@ + src@.subrange(0, i as int + 1));
        }
        i += 1;
    }
    proof {
        assert(old(dst)@ + src@.subrange(0, src@.len() as int) =~= old(dst)@ + src@);
    }
}

/// A fresh byte vector with the same contents as `src`.
pub fn copy_bytes(src: &[u8]) -> (r: Vec<u8>)
    ensures
        r@ == src@,
{
    let mut out: Vec<u8> = Vec::new();
    append_bytes(&mut out, src);
    proof {
        assert(out@ =~= src@);
    }
    out
}

/// Fails with `MessageTooLarge` when `bit_count` bits do not fit into
/// `capacity_bit_count` channels; succeeds otherwise.
pub fn check_capacity(capacity_bit_count: usize, bit_count: usize) -> (r: Result<(), StegoError>)
    ensures
        r matches Ok(()) <==> bit_count <= capacity_bit_count,
        r matches Err(e) ==> e == (StegoError::MessageTooLarge {
            capacity_bits: capacity_bit_count,
            required_bits: bit_count,
        }),
{
    if bit_count > capacity_bit_count {
        return Err(
            StegoError::MessageTooLarge {
                capacity_bits: capacity_bit_count,
                required_bits: bit_count,
            },
        );
    }
    Ok(())
}

/// Checks that `bits` fits a single carrier's channel count.
pub fn check_capacity_image(img: &Carrier, bits: &[bool]) -> (r: Result<(), StegoError>)
    ensures
        r matches Ok(()) <==> bits@.len() <= img.data@.len(),
        r matches Err(e) ==> e == (StegoError::MessageTooLarge {
            capacity_bits: img.data@.len() as usize,
            required_bits: bits@.len() as usize,
        }),
{
    check_capacity(img.capacity_bits(), bits.len())
}

/// Checks that `bits` fits the summed channel count of a carrier set.
pub fn check_capacity_images(imgs: &Vec<Carrier>, bits: &[bool]) -> (r: Result<(), StegoError>)
    ensures
        r matches Ok(()) <==> bits@.len() <= all_channels(imgs@).len(),
        r matches Err(e) ==> (e matches StegoError::MessageTooLarge {
            capacity_bits,
            required_bits,
        } && required_bits == bits@.len() && capacity_bits == all_channels(imgs@).len()),
{
    let capacity = crate::carrier::total_capacity_bits(imgs);
    check_capacity(capacity, bits.len())
}

/// A path that names a JPEG file, checked case-insensitively on the ASCII
/// suffix: lossy output would destroy the hidden bits.
pub open spec fn is_lossy_output_path(s: Seq<char>) -> bool {
    ||| (s.len() >= 4 && s[s.len() - 4] == '.' && (s[s.len() - 3] == 'j' || s[s.len() - 3] == 'J')
        && (s[s.len() - 2] == 'p' || s[s.len() - 2] == 'P') && (s[s.len() - 1] == 'g' || s[s.len()
        - 1] == 'G'))
    ||| (s.len() >= 5 && s[s.len() - 5] == '.' && (s[s.len() - 4] == 'j' || s[s.len() - 4] == 'J')
        && (s[s.len() - 3] == 'p' || s[s.len() - 3] == 'P') && (s[s.len() - 2] == 'e' || s[s.len()
        - 2] == 'E') && (s[s.len() - 1] == 'g' || s[s.len() - 1] == 'G'))
}

/// Rejects output paths with a `.jpg` / `.jpeg` suffix (any ASCII case):
/// JPEG's lossy compression would destroy the hidden data.
pub fn check_image_png(path: &str) -> (r: Result<(), StegoError>)
    ensures
        r matches Ok(()) <==> !is_lossy_output_path(path@),
        r matches Err(e) ==> e == StegoError::UnsupportedOutputFormat,
{
    let n = path.unicode_len();
    let jpg = if n >= 4 {
        let d = path.get_char(n - 4);
        let j = path.get_char(n - 3);
        let p = path.get_char(n - 2);
        let g = path.get_char(n - 1);
        d == '.' && (j == 'j' || j == 'J') && (p == 'p' || p == 'P') && (g == 'g' || g == 'G')
    } else {
        false
    };
    let jpeg = if n >= 5 {
        let d = path.get_char(n - 5);
        let j = path.get_char(n - 4);
        let p = path.get_char(n - 3);
        let e = path.get_char(n - 2);
        let g = path.get_char(n - 1);
        d == '.' && (j == 'j' || j == 'J') && (p == 'p' || p == 'P') && (e == 'e' || e == 'E') && (
        g == 'g' || g == 'G')
    } else {
        false
    };
    if jpg || jpeg {
        Err(StegoError::UnsupportedOutputFormat)
    } else {
        Ok(())
    }
}

} // verus!
