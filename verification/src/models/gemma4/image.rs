//! Image sizes, and what a self-test of the media path looks at.
use vstd::prelude::*;

use crate::ieee::Format;
use crate::models::gemma4::graph::Gemma4;

verus! {

/// Patches that an image may have.
pub const G4_MAX_PATCHES: usize = 2520;

/// Image sides are multiples of this many pixels: patches of 16, pooled 3x3.
pub const G4_SIDE_MULT: usize = 48;

/// One half in single precision.
pub const HALF: u32 = 0x3f00_0000;

/// Why an image has no size.
#[derive(Clone, Copy, PartialEq, Eq, Debug, Structural)]
pub enum SizeError {
    ZeroDimension,
    TooSmall,
    TooManyPatches,
}

/// What both sides are stretched by, in double precision.
pub open spec fn stretch(w: int, h: int) -> int {
    Format::F64.root(Format::F64.quotient(Format::F64.of_int(645120), Format::F64.of_int(h * w)))
}

/// A side, stretched and cut to a whole number of pooled patches.
pub open spec fn stretched(factor: int, side: int) -> int {
    Format::F64.truncated(
        Format::F64.quotient(
            Format::F64.product(factor, Format::F64.of_int(side)),
            Format::F64.of_int(48),
        ),
    ) * 48
}

pub open spec fn clamped(n: int) -> int {
    if n > 13440 {
        13440
    } else if n < 48 {
        48
    } else {
        n
    }
}

/// Height and width that keep the aspect ratio within the budget of patches.
/// Where one side would vanish it is one pooled patch, and the other follows
/// the whole ratio.
pub open spec fn target(w: int, h: int) -> Result<(int, int), SizeError> {
    if w == 0 || h == 0 {
        Err(SizeError::ZeroDimension)
    } else {
        let f = stretch(w, h);
        let (th, tw) = (stretched(f, h), stretched(f, w));
        if th == 0 && tw == 0 {
            Err(SizeError::TooSmall)
        } else {
            let (a, b) = if th == 0 {
                (48, clamped(w / h * 48))
            } else if tw == 0 {
                (clamped(h / w * 48), 48)
            } else {
                (th, tw)
            };
            if (a / 16) * (b / 16) > G4_MAX_PATCHES {
                Err(SizeError::TooManyPatches)
            } else {
                Ok((a, b))
            }
        }
    }
}

fn stretch_side(factor: u64, side: usize) -> (r: u128)
    requires
        Format::F64.holds(factor as int),
    ensures
        r == stretched(factor as int, side as int),
        r % 48 == 0,
        r <= 0xffff_ffff_ffff_ffff * 48,
{
    let q: u64 = Format::F64.divide(
        Format::F64.multiply(factor, Format::F64.from_u64(side as u64)),
        Format::F64.from_u64(48),
    );
    (Format::F64.trunc_u64(q) as u128) * 48
}

fn clamp_side(n: u128) -> (r: u128)
    ensures
        r == clamped(n as int),
{
    if n > 280 * 48 {
        280 * 48
    } else if n < 48 {
        48
    } else {
        n
    }
}

proof fn lemma_patches(a: int, b: int)
    requires
        a >= 48,
        b >= 48,
        a / 16 > 2520 || b / 16 > 2520,
    ensures
        (a / 16) * (b / 16) > 2520,
{
    let (x, y) = (a / 16, b / 16);
    assert(x * y > 2520) by (nonlinear_arith)
        requires
            x >= 3,
            y >= 3,
            x > 2520 || y > 2520,
    ;
}

impl Gemma4 {
    /// What pixels are normalized by, per channel: a mean and a deviation of
    /// one half.
    pub fn image_norm() -> (r: ([u32; 3], [u32; 3]))
        ensures
            r.0@ == seq![HALF, HALF, HALF],
            r.1@ == seq![HALF, HALF, HALF],
    {
        let h: [u32; 3] = [HALF, HALF, HALF];
        assert(h@ =~= seq![HALF, HALF, HALF]);
        (h, h)
    }

    /// The size an image is resized to, height first: whole in pooled patches and
    /// within the budget.
    pub fn image_target_size(src_w: usize, src_h: usize) -> (r: Result<(usize, usize), SizeError>)
        requires
            src_w * src_h <= usize::MAX,
        ensures
            match r {
                Ok((h, w)) => target(src_w as int, src_h as int) == Ok::<(int, int), SizeError>(
                    (h as int, w as int),
                ),
                Err(e) => target(src_w as int, src_h as int) == Err::<(int, int), SizeError>(e),
            },
            r matches Ok((h, w)) ==> h >= 48 && w >= 48 && h % 48 == 0 && w % 48 == 0 && (h as int / 16) * (
            w as int / 16) <= G4_MAX_PATCHES,
    {
        if src_w == 0 || src_h == 0 {
            return Err(SizeError::ZeroDimension);
        }
        assert(src_h * src_w == src_w * src_h) by (nonlinear_arith);
        let total: u64 = Format::F64.from_u64((src_h * src_w) as u64);
        let factor: u64 = Format::F64.square_root(Format::F64.divide(Format::F64.from_u64(645120), total));
        let th: u128 = stretch_side(factor, src_h);
        let tw: u128 = stretch_side(factor, src_w);
        if th == 0 && tw == 0 {
            return Err(SizeError::TooSmall);
        }
        let (a, b): (u128, u128) = if th == 0 {
            (48, clamp_side((src_w / src_h) as u128 * 48))
        } else if tw == 0 {
            (clamp_side((src_h / src_w) as u128 * 48), 48)
        } else {
            (th, tw)
        };
        assert(a >= 48 && b >= 48);
        if a / 16 > 2520 || b / 16 > 2520 {
            proof {
                lemma_patches(a as int, b as int);
            }
            return Err(SizeError::TooManyPatches);
        }
        assert((a / 16) * (b / 16) <= 2520 * 2520) by (nonlinear_arith)
            requires
                a / 16 <= 2520,
                b / 16 <= 2520,
        ;
        if (a / 16) * (b / 16) > 2520 {
            return Err(SizeError::TooManyPatches);
        }
        Ok((a as usize, b as usize))
    }
}

/// Rows and positions that a check of the media path looks at.
pub struct SpliceProbe {
    /// The first, the middle and the last row of the span.
    pub rows: Vec<usize>,
    /// The tokens around the span: its front and its tail.
    pub front: (usize, usize),
    pub tail: (usize, usize),
    /// The centres of the quadrants of the square of media rows; none for a
    /// square whose side is no 16-bit number.
    pub centres: Vec<usize>,
}

/// The side of the square that `rows` media rows fill.
pub open spec fn grid_side(rows: int) -> int {
    Format::F32.truncated(Format::F32.root(Format::F32.of_int(rows)))
}

/// What to look at in a prompt of `n` tokens with a span of `rows` rows at
/// `at`.
pub fn splice_probe(n: usize, at: usize, rows: usize) -> (r: SpliceProbe)
    requires
        rows >= 1,
        at + rows + 2 <= usize::MAX,
        at + rows <= n + 2,
    ensures
        r.rows@ == seq![0, (rows / 2) as usize, (rows - 1) as usize],
        ({
            let lo = if at >= 2 {
                at - 2
            } else {
                0
            };
            let hi = if at + rows + 2 <= n {
                at + rows + 2
            } else {
                n as int
            };
            let tail = if at + rows >= 2 {
                at + rows - 2
            } else {
                0
            };
            &&& r.front == (lo as usize, (if lo + 6 <= hi {
                lo + 6
            } else {
                hi
            }) as usize)
            &&& r.tail == (tail as usize, hi as usize)
        }),
        ({
            let s = grid_side(rows as int);
            let q = s / 4;
            r.centres@ == (if 1 <= s <= 0xffff {
                seq![
                    (q * s + q) as usize,
                    (q * s + (s - 1 - q)) as usize,
                    ((s - 1 - q) * s + q) as usize,
                    ((s - 1 - q) * s + (s - 1 - q)) as usize,
                ]
            } else {
                Seq::empty()
            })
        }),
{
    let lo: usize = if at >= 2 {
        at - 2
    } else {
        0
    };
    let hi: usize = if at + rows + 2 <= n {
        at + rows + 2
    } else {
        n
    };
    let end: usize = if hi - lo >= 6 {
        lo + 6
    } else {
        hi
    };
    let tail: usize = if at + rows >= 2 {
        at + rows - 2
    } else {
        0
    };
    let mut probes: Vec<usize> = Vec::new();
    probes.push(0);
    probes.push(rows / 2);
    probes.push(rows - 1);
    let side: u64 = Format::F32.trunc_u64(
        Format::F32.square_root(Format::F32.from_u64(rows as u64)),
    );
    let mut centres: Vec<usize> = Vec::new();
    if 1 <= side && side <= 0xffff {
        let s: usize = side as usize;
        let q: usize = s / 4;
        let b: usize = s - 1 - q;
        assert(0 <= q * s <= 0xfffe * 0xffff && 0 <= b * s <= 0xfffe * 0xffff) by (nonlinear_arith)
            requires
                1 <= s <= 0xffff,
                0 <= q <= s - 1,
                0 <= b <= s - 1,
        ;
        centres.push(q * s + q);
        centres.push(q * s + b);
        centres.push(b * s + q);
        centres.push(b * s + b);
    }
    SpliceProbe { rows: probes, front: (lo, end), tail: (tail, hi), centres }
}

} // verus!
