//! The picture as it leaves the renderer: the whole number that each channel
//! becomes, the order of the pixels, and the text of the plain pixel map.

use vstd::arithmetic::div_mod::{lemma_fundamental_div_mod, lemma_fundamental_div_mod_converse};
use vstd::arithmetic::power2::{
    lemma2_to64,
    lemma_pow2_adds,
    lemma_pow2_pos,
    lemma_pow2_strictly_increases,
    lemma_pow2_unfold,
    pow2,
};
use vstd::prelude::*;
use crate::scalar::{size_of, units_in_one, Scalar, FRACTIONS, INFINITE, SIGN_BIT};

verus! {

/// The channel value of a scalar: the greatest whole number not above it,
/// kept within the 32-bit range. A scalar that is no number gives 0, and an
/// infinity the end of the range on its side.
pub open spec fn quantize_spec(s: Scalar) -> int {
    if s.is_nan() {
        0
    } else if !s.is_finite() {
        if s.bits >= SIGN_BIT {
            i32::MIN as int
        } else {
            i32::MAX as int
        }
    } else {
        let floor = s.value() / units_in_one();
        if floor > i32::MAX {
            i32::MAX as int
        } else if floor < i32::MIN {
            i32::MIN as int
        } else {
            floor
        }
    }
}

fn two_to(k: u32) -> (p: u64)
    requires
        k <= 23,
    ensures
        p == pow2(k as nat),
        0 < p <= 0x80_0000,
{
    let mut p: u64 = 1;
    let mut i: u32 = 0;
    proof {
        lemma2_to64();
    }
    while i < k
        invariant
            i <= k <= 23,
            p == pow2(i as nat),
            0 < p <= pow2(23) == 0x80_0000,
        decreases k - i,
    {
        proof {
            lemma_pow2_unfold((i + 1) as nat);
            if i + 1 < 23 {
                lemma_pow2_strictly_increases((i + 1) as nat, 23);
            }
        }
        p = p * 2;
        i += 1;
    }
    p
}

/// Maps a scalar to a channel value, rounding down. The caller hands in the
/// channel already scaled to the range of the pixel map. Nothing is cut off
/// at the greatest channel value: a channel brighter than full comes out
/// above it, and only the 32-bit range bounds the result.
pub fn quantize(s: Scalar) -> (q: i32)
    ensures
        q == quantize_spec(s),
{
    let negative: bool = s.bits >= SIGN_BIT;
    let m: u32 = if negative {
        s.bits - SIGN_BIT
    } else {
        s.bits
    };
    if m > INFINITE {
        return 0;
    }
    if m == INFINITE {
        return if negative {
            i32::MIN
        } else {
            i32::MAX
        };
    }
    let e: u32 = m / FRACTIONS;
    let f: u32 = m % FRACTIONS;
    let ghost unit = units_in_one();
    let ghost size = size_of(m as int);
    proof {
        lemma_pow2_pos(149);
        assert(s.value() == if negative {
            -size
        } else {
            size
        });
    }
    if e < 127 {
        proof {
            lemma2_to64();
            if e == 0 {
                lemma_pow2_strictly_increases(23, 149);
            } else {
                let p = pow2((e - 1) as nat) as int;
                lemma_pow2_pos((e - 1) as nat);
                lemma_pow2_adds(24, (e - 1) as nat);
                if e + 23 < 149 {
                    lemma_pow2_strictly_increases((e + 23) as nat, 149);
                }
                assert((FRACTIONS + f) * p < pow2(24) * p) by (nonlinear_arith)
                    requires
                        FRACTIONS + f < pow2(24),
                        p > 0,
                ;
                assert(size > 0) by (nonlinear_arith)
                    requires
                        size == (FRACTIONS + f) * p,
                        p > 0,
                        f >= 0,
                ;
            }
            assert(0 <= size < unit);
            assert(size == 0 <==> m == 0);
            if negative && m != 0 {
                lemma_fundamental_div_mod_converse(-size, unit, -1, unit - size);
            } else {
                lemma_fundamental_div_mod_converse(s.value(), unit, 0, size);
            }
        }
        return if negative && m != 0 {
            -1
        } else {
            0
        };
    }
    let mantissa: u64 = (FRACTIONS + f) as u64;
    if e >= 158 {
        proof {
            let w = pow2((e - 150) as nat) as int;
            lemma2_to64();
            if e > 158 {
                lemma_pow2_strictly_increases(8, (e - 150) as nat);
            }
            lemma_pow2_adds((e - 150) as nat, 149);
            assert(size == (mantissa * w) * unit) by (nonlinear_arith)
                requires
                    size == mantissa * (w * unit),
            ;
            assert(mantissa * w >= 0x8000_0000) by (nonlinear_arith)
                requires
                    mantissa >= 0x80_0000,
                    w >= 0x100,
            ;
            if negative {
                assert(-size == (-(mantissa * w)) * unit + 0) by (nonlinear_arith)
                    requires
                        size == (mantissa * w) * unit,
                ;
                lemma_fundamental_div_mod_converse(-size, unit, -(mantissa * w), 0);
            } else {
                lemma_fundamental_div_mod_converse(size, unit, mantissa * w, 0);
            }
        }
        return if negative {
            i32::MIN
        } else {
            i32::MAX
        };
    }
    if e >= 150 {
        let scale: u64 = two_to(e - 150);
        proof {
            lemma2_to64();
            if e < 157 {
                lemma_pow2_strictly_increases((e - 150) as nat, 7);
            }
            lemma_pow2_adds((e - 150) as nat, 149);
            assert(mantissa * scale < 0x8000_0000) by (nonlinear_arith)
                requires
                    mantissa < 0x100_0000,
                    0 < scale <= 0x80,
            ;
            assert(size == (mantissa * scale) * unit) by (nonlinear_arith)
                requires
                    size == mantissa * (scale * unit),
            ;
            if negative {
                assert(-size == (-(mantissa * scale)) * unit + 0) by (nonlinear_arith)
                    requires
                        size == (mantissa * scale) * unit,
                ;
                lemma_fundamental_div_mod_converse(-size, unit, -(mantissa * scale), 0);
            } else {
                lemma_fundamental_div_mod_converse(size, unit, mantissa * scale, 0);
            }
        }
        let whole: u64 = mantissa * scale;
        return if negative {
            -(whole as i64) as i32
        } else {
            whole as i32
        };
    }
    let divisor: u64 = two_to(150 - e);
    let quotient: u64 = mantissa / divisor;
    let rest: u64 = mantissa % divisor;
    proof {
        let p = pow2((e - 1) as nat) as int;
        lemma_pow2_pos((e - 1) as nat);
        lemma_pow2_adds((150 - e) as nat, (e - 1) as nat);
        assert(unit == divisor * p);
        lemma_fundamental_div_mod(mantissa as int, divisor as int);
        assert(mantissa == quotient * divisor + rest) by (nonlinear_arith)
            requires
                mantissa == divisor * quotient + rest,
        ;
        assert(size == quotient * unit + rest * p) by (nonlinear_arith)
            requires
                size == mantissa * p,
                mantissa == quotient * divisor + rest,
                unit == divisor * p,
        ;
        assert(0 <= rest * p < unit && (rest == 0 ==> rest * p == 0) && (rest > 0 ==> rest * p
            > 0)) by (nonlinear_arith)
            requires
                0 <= rest < divisor,
                unit == divisor * p,
                p > 0,
        ;
        if negative {
            if rest == 0 {
                assert(-size == (-(quotient as int)) * unit + 0) by (nonlinear_arith)
                    requires
                        size == quotient * unit + rest * p,
                        rest * p == 0,
                ;
                lemma_fundamental_div_mod_converse(-size, unit, -(quotient as int), 0);
            } else {
                assert(-size == (-(quotient as int) - 1) * unit + (unit - rest * p))
                    by (nonlinear_arith)
                    requires
                        size == quotient * unit + rest * p,
                ;
                lemma_fundamental_div_mod_converse(
                    -size,
                    unit,
                    -(quotient as int) - 1,
                    unit - rest * p,
                );
            }
        } else {
            lemma_fundamental_div_mod_converse(size, unit, quotient as int, rest * p);
        }
    }
    if negative {
        if rest != 0 {
            -(quotient as i64) as i32 - 1
        } else {
            -(quotient as i64) as i32
        }
    } else {
        quotient as i32
    }
}

/// The digits of `n` in base ten, as ASCII, without leading zeros.
pub open spec fn digits(n: nat) -> Seq<u8>
    decreases n,
{
    if n < 10 {
        seq![(48 + n) as u8]
    } else {
        digits(n / 10).push((48 + n % 10) as u8)
    }
}

/// `n` in base ten, as ASCII, with a minus sign where it is negative.
pub open spec fn decimal(n: int) -> Seq<u8> {
    if n < 0 {
        seq![45u8] + digits((-n) as nat)
    } else {
        digits(n as nat)
    }
}

/// The three lines that open a pixel map: the format's tag, the width and
/// the height with a space between them, and the greatest channel value.
pub open spec fn header_spec(nx: int, ny: int) -> Seq<u8> {
    seq![80u8, 51u8, 10u8] + decimal(nx) + seq![32u8] + decimal(ny) + seq![10u8] + decimal(255)
        + seq![10u8]
}

/// The line of one pixel: its three channels with a space between them.
pub open spec fn pixel_line_spec(r: int, g: int, b: int) -> Seq<u8> {
    decimal(r) + seq![32u8] + decimal(g) + seq![32u8] + decimal(b) + seq![10u8]
}

fn push_digits(out: &mut Vec<u8>, n: u32)
    ensures
        final(out)@ == old(out)@ + digits(n as nat),
    decreases n,
{
    if n >= 10 {
        push_digits(out, n / 10);
    }
    let digit: u32 = n % 10;
    out.push(48u8 + digit as u8);
    proof {
        assert(final(out)@ =~= old(out)@ + digits(n as nat));
    }
}

fn push_decimal(out: &mut Vec<u8>, n: i32)
    ensures
        final(out)@ == old(out)@ + decimal(n as int),
{
    if n < 0 {
        out.push(45u8);
        let magnitude: i64 = -(n as i64);
        push_digits(out, magnitude as u32);
        proof {
            assert(final(out)@ =~= old(out)@ + decimal(n as int));
        }
    } else {
        push_digits(out, n as u32);
    }
}

/// The header of a pixel map `nx` wide and `ny` high.
pub fn header(nx: i32, ny: i32) -> (text: Vec<u8>)
    ensures
        text@ == header_spec(nx as int, ny as int),
{
    let mut text: Vec<u8> = Vec::new();
    text.push(80u8);
    text.push(51u8);
    text.push(10u8);
    push_decimal(&mut text, nx);
    text.push(32u8);
    push_decimal(&mut text, ny);
    text.push(10u8);
    push_decimal(&mut text, 255);
    text.push(10u8);
    proof {
        assert(text@ =~= header_spec(nx as int, ny as int));
    }
    text
}

/// The line of a pixel with the given channels.
pub fn pixel_line(r: i32, g: i32, b: i32) -> (text: Vec<u8>)
    ensures
        text@ == pixel_line_spec(r as int, g as int, b as int),
{
    let mut text: Vec<u8> = Vec::new();
    push_decimal(&mut text, r);
    text.push(32u8);
    push_decimal(&mut text, g);
    text.push(32u8);
    push_decimal(&mut text, b);
    text.push(10u8);
    proof {
        assert(text@ =~= pixel_line_spec(r as int, g as int, b as int));
    }
    text
}

/// The number of pixels of a picture `nx` wide and `ny` high: none where a
/// side is not positive.
pub open spec fn pixel_count_spec(nx: int, ny: int) -> int {
    if nx > 0 && ny > 0 {
        nx * ny
    } else {
        0
    }
}

/// The number of pixels, and so of pixel lines, of a picture.
pub fn pixel_count(nx: i32, ny: i32) -> (count: u64)
    ensures
        count == pixel_count_spec(nx as int, ny as int),
{
    if nx > 0 && ny > 0 {
        assert(0 < nx * ny <= 0x7fff_ffff * 0x7fff_ffff) by (nonlinear_arith)
            requires
                0 < nx <= 0x7fff_ffff,
                0 < ny <= 0x7fff_ffff,
        ;
        nx as u64 * ny as u64
    } else {
        0
    }
}

/// The pixel that leaves on line `line` of the body, counted from 0: its
/// column `i`, counted from the left, and its row `j`, counted from the
/// bottom. Rows leave from the top one down, and each row from left to right,
/// so every pixel of the picture leaves on one line and no other.
pub fn pixel_at(line: u64, nx: i32, ny: i32) -> (pixel: Option<(i32, i32)>)
    ensures
        pixel is Some <==> line < pixel_count_spec(nx as int, ny as int),
        pixel matches Some((i, j)) ==> 0 <= i < nx && 0 <= j < ny && line == (ny - 1 - j) * nx + i,
{
    if line < pixel_count(nx, ny) {
        let width: u64 = nx as u64;
        let row: u64 = line / width;
        let column: u64 = line % width;
        proof {
            assert(row < ny) by (nonlinear_arith)
                requires
                    line < nx * ny,
                    0 < nx,
                    row == (line as int) / (nx as int),
            ;
            assert(line == row * nx + column) by (nonlinear_arith)
                requires
                    0 < nx,
                    row == (line as int) / (nx as int),
                    column == (line as int) % (nx as int),
            ;
        }
        Some((column as i32, ny - 1 - row as i32))
    } else {
        None
    }
}

} // verus!
