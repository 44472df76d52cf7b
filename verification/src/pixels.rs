//! Icon pixels: turning a bitmap read from the system (32-bit BGRA) into
//! RGBA with the right transparency, and the tray icon's own image.

use vstd::prelude::*;

verus! {

/// The mask bitmap that goes with an icon's colour bitmap.
pub enum IconMask {
    /// The icon has no mask bitmap.
    Absent,
    /// The icon has a mask bitmap, but its pixels could not be read.
    Unreadable,
    /// The mask bitmap's size and pixels (32-bit BGRA, rows top down).
    Pixels { width: u32, height: u32, bgra: Vec<u8> },
}

/// The 4 bytes of pixel `k` in a buffer of 4-byte pixels.
pub open spec fn pixel(s: Seq<u8>, k: int) -> (u8, u8, u8, u8) {
    (s[4 * k], s[4 * k + 1], s[4 * k + 2], s[4 * k + 3])
}

/// Some pixel of the first `n` has a non-zero alpha byte.
pub open spec fn uses_alpha(bgra: Seq<u8>, n: int) -> bool {
    exists|k: int| 0 <= k < n && (#[trigger] pixel(bgra, k)).3 != 0
}

/// The mask is used for transparency: it has the bitmap's width and either
/// its height or twice it (a monochrome icon mask).
pub open spec fn mask_fits(mask: IconMask, width: u32, height: u32) -> bool {
    match mask {
        IconMask::Pixels { width: mw, height: mh, .. } => mw == width && (mh == 2 * height || mh
            == height),
        _ => false,
    }
}

/// The alpha of pixel `k`: its own when any pixel has one; otherwise taken
/// from the mask (opaque where the mask's red byte is at most 128), fully
/// opaque without a mask, and left as it was when the mask is unreadable or
/// of another size.
pub open spec fn icon_alpha(width: u32, height: u32, bgra: Seq<u8>, mask: IconMask, k: int) -> u8 {
    if uses_alpha(bgra, width * height) {
        pixel(bgra, k).3
    } else {
        match mask {
            IconMask::Absent => 255,
            IconMask::Unreadable => pixel(bgra, k).3,
            IconMask::Pixels { bgra: m, .. } => if mask_fits(mask, width, height) {
                if pixel(m@, k).2 > 128 {
                    0
                } else {
                    255
                }
            } else {
                pixel(bgra, k).3
            },
        }
    }
}

/// Whether any pixel of a BGRA buffer has a non-zero alpha byte.
pub fn has_alpha(bgra: &Vec<u8>) -> (b: bool)
    requires
        bgra.len() % 4 == 0,
    ensures
        b == uses_alpha(bgra@, (bgra.len() / 4) as int),
{
    let n = bgra.len() / 4;
    let mut k: usize = 0;
    while k < n
        invariant
            n == bgra.len() / 4,
            bgra.len() % 4 == 0,
            0 <= k <= n,
            forall|j: int| 0 <= j < k ==> (#[trigger] pixel(bgra@, j)).3 == 0,
        decreases n - k,
    {
        if bgra[4 * k + 3] != 0 {
            assert(pixel(bgra@, k as int).3 != 0);
            return true;
        }
        k = k + 1;
    }
    false
}

/// Converts an icon bitmap of `width` × `height` BGRA pixels to RGBA,
/// fixing its transparency as [`icon_alpha`] says.
pub fn icon_rgba(width: u32, height: u32, bgra: &Vec<u8>, mask: &IconMask) -> (r: Vec<u8>)
    requires
        bgra.len() == 4 * width * height,
        match *mask {
            IconMask::Pixels { width: mw, height: mh, bgra: m } => m.len() == 4 * mw * mh,
            _ => true,
        },
    ensures
        r.len() == bgra.len(),
        forall|k: int|
            0 <= k < width * height ==> #[trigger] pixel(r@, k) == (
                pixel(bgra@, k).2,
                pixel(bgra@, k).1,
                pixel(bgra@, k).0,
                icon_alpha(width, height, bgra@, *mask, k),
            ),
{
    let n = bgra.len() / 4;
    assert(n == width * height && bgra.len() == 4 * n) by (nonlinear_arith)
        requires
            bgra.len() == 4 * width * height,
            n == bgra.len() / 4,
    ;
    let has_alpha = has_alpha(bgra);
    let use_mask = !has_alpha && match mask {
        IconMask::Pixels { width: mw, height: mh, .. } => *mw == width && ((*mh as u64) == 2 * (
        height as u64) || *mh == height),
        _ => false,
    };
    proof {
        if use_mask {
            match mask {
                IconMask::Pixels { width: mw, height: mh, bgra: m } => {
                    let mw = *mw;
                    let mh = *mh;
                    let ml = m.len();
                    assert(ml >= 4 * n) by (nonlinear_arith)
                        requires
                            ml == 4 * mw * mh,
                            mw == width,
                            mh >= height,
                            n == width * height,
                    ;
                },
                _ => {},
            }
        }
    }
    let mut out: Vec<u8> = Vec::new();
    let mut k: usize = 0;
    while k < n
        invariant
            n == width * height,
            bgra.len() == 4 * n,
            0 <= k <= n,
            has_alpha == uses_alpha(bgra@, width * height),
            use_mask == (!has_alpha && mask_fits(*mask, width, height)),
            use_mask ==> match *mask {
                IconMask::Pixels { bgra: m, .. } => m.len() >= 4 * n,
                _ => false,
            },
            out.len() == 4 * k,
            forall|j: int|
                0 <= j < k ==> #[trigger] pixel(out@, j) == (
                    pixel(bgra@, j).2,
                    pixel(bgra@, j).1,
                    pixel(bgra@, j).0,
                    icon_alpha(width, height, bgra@, *mask, j),
                ),
        decreases n - k,
    {
        let i = 4 * k;
        let own = bgra[i + 3];
        let alpha = if has_alpha {
            own
        } else if use_mask {
            match mask {
                IconMask::Pixels { bgra: m, .. } => if m[i + 2] > 128 {
                    0
                } else {
                    255
                },
                _ => own,
            }
        } else {
            match mask {
                IconMask::Absent => 255,
                _ => own,
            }
        };
        let ghost before = out@;
        out.push(bgra[i + 2]);
        out.push(bgra[i + 1]);
        out.push(bgra[i]);
        out.push(alpha);
        proof {
            assert forall|j: int| 0 <= j < k + 1 implies #[trigger] pixel(out@, j) == (
                pixel(bgra@, j).2,
                pixel(bgra@, j).1,
                pixel(bgra@, j).0,
                icon_alpha(width, height, bgra@, *mask, j),
            ) by {
                if j < k {
                    assert(pixel(out@, j) == pixel(before, j));
                }
            }
        }
        k = k + 1;
    }
    out
}

/// Width and height, in pixels, of the tray icon.
pub const TRAY_ICON_SIZE: u32 = 16;

/// The tray icon's pixel at column `x`, row `y`: a bright frame one pixel
/// wide around a dark square, all opaque.
pub open spec fn tray_pixel(x: int, y: int) -> (u8, u8, u8, u8) {
    if x == 0 || y == 0 || x == 15 || y == 15 {
        (20, 200, 255, 255)
    } else {
        (10, 40, 60, 255)
    }
}

/// The tray icon's RGBA pixels, row by row.
pub fn tray_icon_rgba() -> (r: Vec<u8>)
    ensures
        r.len() == 1024,
        forall|k: int| 0 <= k < 256 ==> #[trigger] pixel(r@, k) == tray_pixel(k % 16, k / 16),
{
    let mut out: Vec<u8> = Vec::new();
    let mut y: usize = 0;
    while y < 16
        invariant
            0 <= y <= 16,
            out.len() == 64 * y,
            forall|k: int| 0 <= k < 16 * y ==> #[trigger] pixel(out@, k) == tray_pixel(k % 16, k / 16),
        decreases 16 - y,
    {
        let mut x: usize = 0;
        assert(out.len() == 4 * (16 * y + x));
        while x < 16
            invariant
                0 <= y < 16,
                0 <= x <= 16,
                out.len() == 4 * (16 * y + x),
                forall|k: int|
                    0 <= k < 16 * y + x ==> #[trigger] pixel(out@, k) == tray_pixel(k % 16, k / 16),
            decreases 16 - x,
        {
            let edge = x == 0 || y == 0 || x == 15 || y == 15;
            let (r, g, b, a) = if edge {
                (20u8, 200u8, 255u8, 255u8)
            } else {
                (10u8, 40u8, 60u8, 255u8)
            };
            let ghost before = out@;
            out.push(r);
            out.push(g);
            out.push(b);
            out.push(a);
            proof {
                let k0 = 16 * y + x;
                assert(k0 % 16 == x && k0 / 16 == y);
                assert forall|k: int| 0 <= k < k0 + 1 implies #[trigger] pixel(out@, k) == tray_pixel(
                    k % 16,
                    k / 16,
                ) by {
                    if k < k0 {
                        assert(pixel(out@, k) == pixel(before, k));
                    }
                }
            }
            x = x + 1;
        }
        y = y + 1;
    }
    out
}


/// Whether a bitmap uses alpha is decided by all its pixels: it does exactly
/// when the alpha byte (the 4th byte) of some pixel among the first `n` is
/// not zero.
pub proof fn lemma_uses_alpha_looks_at_every_pixel(bgra: Seq<u8>, n: int)
    requires
        bgra.len() >= 4 * n,
    ensures
        uses_alpha(bgra, n) <==> exists|k: int| 0 <= k < n && #[trigger] bgra[4 * k + 3] != 0,
{
    if uses_alpha(bgra, n) {
        let k = choose|k: int| 0 <= k < n && (#[trigger] pixel(bgra, k)).3 != 0;
        assert(bgra[4 * k + 3] != 0);
    }
    if exists|k: int| 0 <= k < n && #[trigger] bgra[4 * k + 3] != 0 {
        let k = choose|k: int| 0 <= k < n && #[trigger] bgra[4 * k + 3] != 0;
        assert(pixel(bgra, k).3 != 0);
    }
}

/// When any pixel of a bitmap has a non-zero alpha byte, every pixel keeps
/// its own alpha byte, whatever the mask; when every alpha byte is zero and
/// there is no mask, every pixel is made opaque.
pub proof fn lemma_own_alpha_kept(width: u32, height: u32, bgra: Seq<u8>, mask: IconMask, k: int)
    requires
        bgra.len() == 4 * width * height,
        0 <= k < width * height,
    ensures
        (exists|j: int| 0 <= j < width * height && #[trigger] bgra[4 * j + 3] != 0)
            ==> icon_alpha(width, height, bgra, mask, k) == bgra[4 * k + 3],
        (forall|j: int| 0 <= j < width * height ==> #[trigger] bgra[4 * j + 3] == 0) && mask
            is Absent ==> icon_alpha(width, height, bgra, mask, k) == 255,
{
    assert(4 * width * height == 4 * (width * height)) by (nonlinear_arith);
    lemma_uses_alpha_looks_at_every_pixel(bgra, width * height);
}

} // verus!
