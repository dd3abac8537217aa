//! Auto-fit resizing: shrinks a carrier just enough to hold a framed
//! payload, keeping the aspect ratio, holding the smaller dimension at a
//! minimum where the original allows it, and never enlarging the image.
//! When even the clamped result cannot hold the payload, the original
//! dimensions stand and the ordinary capacity check decides.

use vstd::prelude::*;

use vstd::arithmetic::mul::lemma_mul_upper_bound;

use crate::carrier::Carrier;
use crate::common::copy_bytes;
use crate::errors::StegoError;

verus! {

/// The quotient of `a / b` rounded up. Meaningful for `b >= 1`, `a >= 0`.
pub open spec fn ceil_div(a: int, b: int) -> int {
    (a + b - 1) / b
}

/// `r` is the integer square root of `n`, rounded up.
pub open spec fn is_ceil_sqrt(n: int, r: int) -> bool {
    &&& r >= 0
    &&& n <= r * r
    &&& r >= 1 ==> (r - 1) * (r - 1) < n
    &&& r == 0 ==> n <= 0
}

/// The dimension floor a carrier is held at: the requested minimum, capped
/// by the original's smaller side.
pub open spec fn effective_min(min_dimension: int, w: int, h: int) -> int {
    if min_dimension <= w && min_dimension <= h {
        min_dimension
    } else if w <= h {
        w
    } else {
        h
    }
}

/// What the dimension planner returns, step by step, once the aspect-fit
/// height `ch` (the rounded-up square root of the needed pixel count over
/// the aspect ratio) is fixed: derive the width from the aspect ratio, hold
/// the smaller side at the floor, clamp to the original, and fall back to
/// the original dimensions when even that cannot hold `needed` bits.
pub open spec fn dims_plan_from(
    ch: int,
    needed: int,
    w: int,
    h: int,
    min_dimension: int,
    r: (u32, u32),
) -> bool {
    let cw = ceil_div(ch * w, h);
    let em = effective_min(min_dimension, w, h);
    let fw = if cw < em || ch < em {
        if w >= h {
            ceil_div(em * w, h)
        } else {
            em
        }
    } else {
        cw
    };
    let fh = if cw < em || ch < em {
        if w >= h {
            em
        } else {
            ceil_div(em * h, w)
        }
    } else {
        ch
    };
    let gw0 = if fw > w {
        w
    } else {
        fw
    };
    let gh0 = if fh > h {
        h
    } else {
        fh
    };
    let gw = if gw0 < 1 {
        1
    } else {
        gw0
    };
    let gh = if gh0 < 1 {
        1
    } else {
        gh0
    };
    if gw * gh * 4 < needed {
        r.0 == w && r.1 == h
    } else {
        r.0 == gw && r.1 == gh
    }
}

/// `r` is the planner's answer for a payload of `message_bytes` bytes and
/// an original of `w` by `h`: one bit per channel, 4 channels per pixel, the
/// aspect-fit height taken as a rounded-up integer square root.
pub open spec fn dims_plan(
    message_bytes: int,
    w: int,
    h: int,
    min_dimension: int,
    r: (u32, u32),
) -> bool {
    let total = message_bytes + 33;
    let needed = 8 * total;
    let t = ceil_div(2 * total * h, w);
    exists|ch: int| #[trigger] is_ceil_sqrt(t, ch) && dims_plan_from(ch, needed, w, h, min_dimension, r)
}

/// The integer square root, rounded down.
#[verifier::spinoff_prover]
fn sqrt_floor(n: u128) -> (r: u128)
    ensures
        r * r <= n,
        n < (r + 1) * (r + 1),
        r < 0x10000000000000000,
{
    let mut lo: u128 = 0;
    let mut hi: u128 = 0x10000000000000000;
    while lo + 1 < hi
        invariant
            lo < hi <= 0x10000000000000000,
            lo * lo <= n,
            n < hi * hi,
        decreases hi - lo,
    {
        let mid = lo + (hi - lo) / 2;
        proof {
            lemma_mul_upper_bound(
                mid as int,
                0xffffffffffffffff,
                mid as int,
                0xffffffffffffffff,
            );
        }
        if mid * mid <= n {
            lo = mid;
        } else {
            hi = mid;
        }
    }
    lo
}

/// The integer square root, rounded up.
fn sqrt_ceil(n: u128) -> (r: u128)
    ensures
        is_ceil_sqrt(n as int, r as int),
        r <= 0x10000000000000000,
{
    let f = sqrt_floor(n);
    if f * f == n {
        proof {
            if f >= 1 {
                assert((f - 1) * (f - 1) < f * f) by (nonlinear_arith)
                    requires
                        f >= 1,
                ;
            }
        }
        f
    } else {
        f + 1
    }
}

/// Calculates the optimal dimensions for a carrier that must hold a framed
/// payload of `message_bytes` bytes: capacity is taken at 4 embeddable bits
/// per pixel, the aspect ratio is kept as closely as integer rounding
/// allows, the smaller dimension is held at `min_dimension` where the
/// original allows it, and the result never exceeds the original. When even
/// the clamped dimensions cannot hold the payload, the original dimensions
/// are returned unchanged. The result is exactly what [`dims_plan`] says.
#[verifier::spinoff_prover]
pub fn calculate_optimal_dimensions(
    message_bytes: usize,
    original_width: u32,
    original_height: u32,
    min_dimension: u32,
) -> (r: (u32, u32))
    requires
        original_width >= 1,
        original_height >= 1,
        message_bytes + 28 <= u32::MAX,
    ensures
        dims_plan(
            message_bytes as int,
            original_width as int,
            original_height as int,
            min_dimension as int,
            r,
        ),
        1 <= r.0 <= original_width,
        1 <= r.1 <= original_height,
        r.0 as int >= effective_min(
            min_dimension as int,
            original_width as int,
            original_height as int,
        ),
        r.1 as int >= effective_min(
            min_dimension as int,
            original_width as int,
            original_height as int,
        ),
        (r.0 as int * r.1 as int * 4 >= 8 * (message_bytes + 33)) || (r.0 == original_width && r.1
            == original_height),
        original_width as int * original_height as int * 4 >= 8 * (message_bytes + 33) ==> r.0
            as int * r.1 as int * 4 >= 8 * (message_bytes + 33),
{
    let total_bytes: u64 = message_bytes as u64 + 33;
    let needed_bits: u128 = (total_bytes as u128) * 8;
    let min_pixels: u128 = (total_bytes as u128) * 2;
    let w: u128 = original_width as u128;
    let h: u128 = original_height as u128;
    proof {
        lemma_mul_upper_bound(min_pixels as int, 0x200000042, h as int, 0xffffffff);
    }
    // height from the aspect ratio: ceil(sqrt(min_pixels * h / w))
    let t: u128 = (min_pixels * h + (w - 1)) / w;
    let nh0: u128 = sqrt_ceil(t);
    let ghost ch = nh0 as int;
    let mut nh: u128 = nh0;
    proof {
        lemma_mul_upper_bound(nh as int, 0x10000000000000000, w as int, 0xffffffff);
    }
    let mut nw: u128 = (nh * w + (h - 1)) / h;
    // hold the smaller dimension at the minimum the original allows
    let mut em: u128 = min_dimension as u128;
    if w < em {
        em = w;
    }
    if h < em {
        em = h;
    }
    proof {
        assert(em as int == effective_min(min_dimension as int, w as int, h as int));
    }
    if nw < em || nh < em {
        if w >= h {
            nh = em;
            proof {
                lemma_mul_upper_bound(em as int, 0xffffffff, w as int, 0xffffffff);
            }
            nw = (em * w + (h - 1)) / h;
            proof {
                assert((em as int) * (w as int) >= (em as int) * (h as int)) by (nonlinear_arith)
                    requires
                        w as int >= h as int >= 1 && em as int >= 0,
                ;
                vstd::arithmetic::div_mod::lemma_div_multiples_vanish(em as int, h as int);
                vstd::arithmetic::div_mod::lemma_div_is_ordered(
                    (em as int) * (h as int),
                    (em as int) * (w as int) + (h as int) - 1,
                    h as int,
                );
                assert((em as int) * (h as int) == (h as int) * (em as int)) by (nonlinear_arith);
                assert(nw >= em);
            }
        } else {
            nw = em;
            proof {
                lemma_mul_upper_bound(em as int, 0xffffffff, h as int, 0xffffffff);
            }
            nh = (em * h + (w - 1)) / w;
            proof {
                assert((em as int) * (h as int) >= (em as int) * (w as int)) by (nonlinear_arith)
                    requires
                        h as int >= w as int >= 1 && em as int >= 0,
                ;
                vstd::arithmetic::div_mod::lemma_div_multiples_vanish(em as int, w as int);
                vstd::arithmetic::div_mod::lemma_div_is_ordered(
                    (em as int) * (w as int),
                    (em as int) * (h as int) + (w as int) - 1,
                    w as int,
                );
                assert((em as int) * (w as int) == (w as int) * (em as int)) by (nonlinear_arith);
                assert(nh >= em);
            }
        }
    }
    // clamp to the original size; never enlarge
    if nw > w {
        nw = w;
    }
    if nh > h {
        nh = h;
    }
    if nw < 1 {
        nw = 1;
    }
    if nh < 1 {
        nh = 1;
    }
    // final safety: fall back to the original dimensions when the clamped
    // result still cannot hold the payload
    proof {
        lemma_mul_upper_bound(nw as int, 0xffffffff, nh as int, 0xffffffff);
    }
    if nw * nh * 4 < needed_bits {
        proof {
            lemma_plan_met(
                message_bytes as int,
                original_width,
                original_height,
                min_dimension as int,
                t as int,
                ch,
                needed_bits as int,
                (original_width, original_height),
            );
        }
        return (original_width, original_height);
    }
    let result = ((nw as u32), (nh as u32));
    proof {
        lemma_plan_met(
            message_bytes as int,
            original_width,
            original_height,
            min_dimension as int,
            t as int,
            ch,
            needed_bits as int,
            result,
        );
    }
    result
}

/// Packages the planner's exit proof: when the aspect-fit height is the
/// rounded-up square root of the right quantity and the stepwise plan holds
/// of the result, the whole plan holds of it.
proof fn lemma_plan_met(
    m: int,
    width: u32,
    height: u32,
    md: int,
    t: int,
    ch: int,
    needed: int,
    r: (u32, u32),
)
    requires
        width >= 1,
        height >= 1,
        t == ceil_div(2 * (m + 33) * (height as int), width as int),
        needed == 8 * (m + 33),
        is_ceil_sqrt(t, ch),
        dims_plan_from(ch, needed, width as int, height as int, md, r),
    ensures
        dims_plan(m, width as int, height as int, md, r),
{
    assert(is_ceil_sqrt(ceil_div(2 * (m + 33) * (height as int), width as int), ch));
}

/// Relies on image's `imageops::resize` with Lanczos3 filtering: the result
/// is an RGBA image of exactly the requested dimensions.
#[verifier::external_body]
fn resize_rgba(img: &Carrier, new_width: u32, new_height: u32) -> (r: Carrier)
    requires
        img.wf(),
        1 <= new_width <= img.width,
        1 <= new_height <= img.height,
    ensures
        r.width == new_width,
        r.height == new_height,
        r.wf(),
{
    let buf = image::RgbaImage::from_raw(img.width, img.height, img.data.clone()).unwrap_or_else(
        || image::RgbaImage::new(img.width, img.height),
    );
    let resized = image::imageops::resize(
        &buf,
        new_width,
        new_height,
        image::imageops::FilterType::Lanczos3,
    );
    Carrier { width: new_width, height: new_height, data: resized.into_raw() }
}

/// Shrinks the carrier to the planner's dimensions for the payload when
/// that saves space; a carrier whose planned dimensions are its own is
/// returned as a byte-identical copy. The result can hold the framed
/// payload unless even the original could not.
pub fn resize_image(img: &Carrier, message_bytes_len: usize, min_size: u32) -> (r: Result<
    Carrier,
    StegoError,
>)
    requires
        img.wf(),
        img.width >= 1,
        img.height >= 1,
        message_bytes_len + 28 <= u32::MAX,
    ensures
        r matches Ok(out) ==> out.wf() && 1 <= out.width <= img.width && 1 <= out.height
            <= img.height,
        r matches Ok(out) ==> dims_plan(
            message_bytes_len as int,
            img.width as int,
            img.height as int,
            min_size as int,
            (out.width, out.height),
        ),
        r matches Ok(out) ==> ((out.width == img.width && out.height == img.height) ==> out.data@
            == img.data@),
        r matches Ok(out) ==> ((out.width as int * out.height as int * 4 >= 8 * (message_bytes_len
            + 33)) || (out.width == img.width && out.height == img.height)),
        r matches Ok(out) ==> (img.width as int * img.height as int * 4 >= 8 * (message_bytes_len
            + 33) ==> out.width as int * out.height as int * 4 >= 8 * (message_bytes_len + 33)),
        r matches Ok(_),
{
    let dims = calculate_optimal_dimensions(message_bytes_len, img.width, img.height, min_size);
    let (new_width, new_height) = dims;
    if new_width < img.width || new_height < img.height {
        Ok(resize_rgba(img, new_width, new_height))
    } else {
        Ok(
            Carrier {
                width: img.width,
                height: img.height,
                data: copy_bytes(img.data.as_slice()),
            },
        )
    }
}

} // verus!

