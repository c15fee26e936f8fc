use vstd::prelude::*;

verus! {

broadcast use vstd::array::group_array_axioms;

/// `x`, raised to at least 1.
pub open spec fn at_least_one(x: u32) -> nat {
    if x == 0 {
        1
    } else {
        x as nat
    }
}

/// The number of pixels of a texture of `dimensions`, each raised to at least 1.
pub open spec fn pixel_count(dimensions: [u32; 2]) -> nat {
    at_least_one(dimensions[0]) * at_least_one(dimensions[1])
}

/// Byte `j` of the RGBA pixel `i` made from a source with `bpp` bytes per pixel: the
/// source's byte where it has one, else 255 for alpha and 0 for a colour.
pub open spec fn padded_byte(data: Seq<u8>, bpp: nat, i: int, j: int) -> u8 {
    if j < bpp {
        data[bpp * i + j]
    } else if j == 3 {
        255
    } else {
        0
    }
}

/// The pixels of `data` as RGBA: `data` itself where it has at least four bytes per
/// pixel, else each pixel padded to four bytes.
pub open spec fn rgba_data(dimensions: [u32; 2], data: Seq<u8>) -> Seq<u8> {
    let px = pixel_count(dimensions);
    let bpp = data.len() / px;
    if bpp >= 4 {
        data
    } else {
        Seq::new(4 * px, |k: int| padded_byte(data, bpp, k / 4, k % 4))
    }
}

/// The number of times `n` can be halved before it drops below 2: `ilog2(n)` for
/// `n >= 1`.
pub open spec fn log2(n: nat) -> nat
    decreases n,
{
    if n <= 1 {
        0
    } else {
        1 + log2(n / 2)
    }
}

/// 2 raised to `k`.
pub open spec fn two_to(k: nat) -> nat
    decreases k,
{
    if k == 0 {
        1
    } else {
        2 * two_to((k - 1) as nat)
    }
}

proof fn lemma_log2_below(n: nat, k: nat)
    requires
        n < two_to(k),
        k >= 1,
    ensures
        log2(n) < k,
    decreases k,
{
    if n > 1 {
        assert(two_to(0) == 1);
        assert(two_to(1) == 2);
        lemma_log2_below(n / 2, (k - 1) as nat);
    }
}

/// The pixel bytes a texture of `dimensions` is uploaded with: `data` where it holds at
/// least four bytes per pixel, else every pixel padded to RGBA with the source's bytes
/// first, zero colour bytes after them and opaque alpha. Bytes per pixel is the data's
/// length over the pixel count, each dimension raised to at least 1.
pub fn rgba_pixels(dimensions: [u32; 2], data: &[u8]) -> (r: Vec<u8>)
    requires
        pixel_count(dimensions) <= u32::MAX,
        4 * pixel_count(dimensions) <= usize::MAX,
    ensures
        r@ == rgba_data(dimensions, data@),
        ({
            let px = pixel_count(dimensions);
            let bpp = data@.len() / px;
            &&& bpp >= 4 ==> r@ == data@
            &&& bpp < 4 ==> r@.len() == 4 * px && forall|i: int, j: int|
                0 <= i < px && 0 <= j < 4 ==> #[trigger] r@[4 * i + j] == padded_byte(
                    data@,
                    bpp,
                    i,
                    j,
                )
        }),
{
    let w: u32 = if dimensions[0] == 0 {
        1
    } else {
        dimensions[0]
    };
    let h: u32 = if dimensions[1] == 0 {
        1
    } else {
        dimensions[1]
    };
    let ghost px = pixel_count(dimensions);
    assert(w as nat * h as nat == px);
    let px_count: usize = (w * h) as usize;
    assert(px_count >= 1) by (nonlinear_arith)
        requires
            px_count == w * h,
            w >= 1,
            h >= 1,
    ;
    let bytes_per_pixel: usize = data.len() / px_count;
    if bytes_per_pixel >= 4 {
        let mut out: Vec<u8> = Vec::new();
        let mut k: usize = 0;
        while k < data.len()
            invariant
                k <= data@.len(),
                out@ == data@.take(k as int),
            decreases data@.len() - k,
        {
            out.push(data[k]);
            k += 1;
            assert(out@ =~= data@.take(k as int));
        }
        assert(data@.take(data@.len() as int) =~= data@);
        return out;
    }
    let ghost bpp = bytes_per_pixel as nat;
    let ghost target = rgba_data(dimensions, data@);
    assert(bpp * px <= data@.len()) by (nonlinear_arith)
        requires
            bpp == data@.len() / px,
            px >= 1,
    ;
    let mut out: Vec<u8> = Vec::new();
    let mut i: usize = 0;
    while i < px_count
        invariant
            i <= px_count,
            px_count == px,
            px >= 1,
            bpp == bytes_per_pixel,
            bpp < 4,
            bpp * px <= data@.len(),
            data@.len() <= usize::MAX,
            4 * px <= usize::MAX,
            target == Seq::new(4 * px, |k: int| padded_byte(data@, bpp, k / 4, k % 4)),
            out@ == target.take(4 * i),
        decreases px_count - i,
    {
        let mut j: usize = 0;
        while j < 4
            invariant
                i < px_count,
                px_count == px,
                j <= 4,
                bpp == bytes_per_pixel,
                bpp < 4,
                bpp * px <= data@.len(),
                data@.len() <= usize::MAX,
                4 * px <= usize::MAX,
                target == Seq::new(4 * px, |k: int| padded_byte(data@, bpp, k / 4, k % 4)),
                out@ == target.take(4 * i + j),
            decreases 4 - j,
        {
            assert(4 * i + j < 4 * px) by (nonlinear_arith)
                requires
                    i < px,
                    j < 4,
            ;
            let b: u8 = if j < bytes_per_pixel {
                assert(bytes_per_pixel * i + j < data@.len() && bytes_per_pixel * i <= usize::MAX)
                    by (nonlinear_arith)
                    requires
                        i < px,
                        j < bytes_per_pixel,
                        bytes_per_pixel * px <= data@.len(),
                        data@.len() <= usize::MAX,
                ;
                let base: usize = bytes_per_pixel * i;
                data[base + j]
            } else if j == 3 {
                255
            } else {
                0
            };
            assert((4 * i + j) / 4 == i && (4 * i + j) % 4 == j) by (nonlinear_arith)
                requires
                    j < 4,
                    i >= 0,
            ;
            assert(b == target[4 * i + j]);
            out.push(b);
            j += 1;
            assert(out@ =~= target.take(4 * i + j));
        }
        i += 1;
        assert(4 * (i - 1) + 4 == 4 * i);
    }
    assert(4 * i == 4 * px);
    assert(target.take(4 * px as int) =~= target);
    assert forall|i: int, j: int| 0 <= i < px && 0 <= j < 4 implies #[trigger] out@[4 * i + j]
        == padded_byte(data@, bpp, i, j) by {
        assert((4 * i + j) / 4 == i && (4 * i + j) % 4 == j && 4 * i + j < 4 * px)
            by (nonlinear_arith)
            requires
                0 <= j < 4,
                0 <= i < px,
        ;
    }
    out
}

/// The number of mip levels of a texture of `dimensions`: with mipmaps, one more than
/// the base-2 logarithm of the larger side (each raised to at least 1), else 1.
pub fn mip_level_count(dimensions: [u32; 2], generate: bool) -> (r: u32)
    ensures
        r == if generate {
            log2(
                if at_least_one(dimensions[0]) >= at_least_one(dimensions[1]) {
                    at_least_one(dimensions[0])
                } else {
                    at_least_one(dimensions[1])
                },
            ) + 1
        } else {
            1
        },
{
    if !generate {
        return 1;
    }
    let w: u32 = if dimensions[0] == 0 {
        1
    } else {
        dimensions[0]
    };
    let h: u32 = if dimensions[1] == 0 {
        1
    } else {
        dimensions[1]
    };
    let side: u32 = if w >= h {
        w
    } else {
        h
    };
    proof {
        reveal_with_fuel(two_to, 33);
        assert(two_to(32) == 4294967296nat);
        lemma_log2_below(side as nat, 32);
    }
    let mut m: u32 = side;
    let mut count: u32 = 0;
    while m > 1
        invariant
            1 <= m,
            count + log2(m as nat) == log2(side as nat),
            log2(side as nat) < 32,
        decreases m,
    {
        m = m / 2;
        count += 1;
    }
    count + 1
}

} // verus!
