//! Bitmap digit font for the timeline's frame ruler.
//!
//! Numbers are drawn as small filled squares on a 3 (wide) x 5 (tall) grid
//! per digit. All placements here are whole pixels relative to the number's
//! top-left corner.

use vstd::prelude::*;

verus! {

/// Width/height of a single "pixel" of the digit font, in screen px.
pub const DIGIT_CELL: u32 = 2;

/// Width of a single digit glyph, in screen px.
pub const DIGIT_WIDTH: u32 = 6;

/// Height of a single digit glyph, in screen px.
pub const DIGIT_HEIGHT: u32 = 10;

/// Horizontal gap between glyphs of a multi-glyph number, in screen px.
pub const DIGIT_GAP: u32 = 2;

/// An axis-aligned filled rectangle, in screen px relative to the number's
/// top-left corner.
#[derive(PartialEq, Eq, Structural, Clone, Copy, Debug)]
pub struct GlyphRect {
    pub x: u32,
    pub y: u32,
    pub w: u32,
    pub h: u32,
}

/// Row `row` of digit `d`'s 3-bit pattern, most significant bit leftmost.
pub open spec fn digit_pattern(d: nat, row: nat) -> u8 {
    if d == 0 {
        if row == 0 { 0b111 } else if row == 1 { 0b101 } else if row == 2 { 0b101 } else if row == 3 { 0b101 } else { 0b111 }
    } else if d == 1 {
        if row == 0 { 0b010 } else if row == 1 { 0b110 } else if row == 2 { 0b010 } else if row == 3 { 0b010 } else { 0b111 }
    } else if d == 2 {
        if row == 0 { 0b111 } else if row == 1 { 0b001 } else if row == 2 { 0b111 } else if row == 3 { 0b100 } else { 0b111 }
    } else if d == 3 {
        if row == 0 { 0b111 } else if row == 1 { 0b001 } else if row == 2 { 0b111 } else if row == 3 { 0b001 } else { 0b111 }
    } else if d == 4 {
        if row == 0 { 0b101 } else if row == 1 { 0b101 } else if row == 2 { 0b111 } else if row == 3 { 0b001 } else { 0b001 }
    } else if d == 5 {
        if row == 0 { 0b111 } else if row == 1 { 0b100 } else if row == 2 { 0b111 } else if row == 3 { 0b001 } else { 0b111 }
    } else if d == 6 {
        if row == 0 { 0b111 } else if row == 1 { 0b100 } else if row == 2 { 0b111 } else if row == 3 { 0b101 } else { 0b111 }
    } else if d == 7 {
        if row == 0 { 0b111 } else if row == 1 { 0b001 } else if row == 2 { 0b001 } else if row == 3 { 0b001 } else { 0b001 }
    } else if d == 8 {
        if row == 0 { 0b111 } else if row == 1 { 0b101 } else if row == 2 { 0b111 } else if row == 3 { 0b101 } else { 0b111 }
    } else {
        if row == 0 { 0b111 } else if row == 1 { 0b101 } else if row == 2 { 0b111 } else if row == 3 { 0b001 } else { 0b111 }
    }
}

/// Row `row` of digit `digit`'s pattern.
pub fn digit_pattern_row(digit: usize, row: usize) -> (r: u8)
    requires
        digit < 10,
        row < 5,
    ensures
        r == digit_pattern(digit as nat, row as nat),
{
    let rows: [u8; 5] = if digit == 0 {
        [0b111, 0b101, 0b101, 0b101, 0b111]
    } else if digit == 1 {
        [0b010, 0b110, 0b010, 0b010, 0b111]
    } else if digit == 2 {
        [0b111, 0b001, 0b111, 0b100, 0b111]
    } else if digit == 3 {
        [0b111, 0b001, 0b111, 0b001, 0b111]
    } else if digit == 4 {
        [0b101, 0b101, 0b111, 0b001, 0b001]
    } else if digit == 5 {
        [0b111, 0b100, 0b111, 0b001, 0b111]
    } else if digit == 6 {
        [0b111, 0b100, 0b111, 0b101, 0b111]
    } else if digit == 7 {
        [0b111, 0b001, 0b001, 0b001, 0b001]
    } else if digit == 8 {
        [0b111, 0b101, 0b111, 0b101, 0b111]
    } else {
        [0b111, 0b101, 0b111, 0b001, 0b111]
    };
    rows[row]
}

/// Whether the cell at grid position `c` (row-major, `c / 3` the row and
/// `c % 3` the column) of digit `d` is lit.
pub open spec fn cell_lit(d: nat, c: nat) -> bool {
    (digit_pattern(d, c / 3) >> ((2 - c % 3) as u8)) & 1 == 1
}

/// The squares for the first `c` grid cells of digit `d` drawn at `x`.
pub open spec fn digit_cells_upto(d: nat, x: int, c: nat) -> Seq<GlyphRect>
    decreases c,
{
    if c == 0 {
        seq![]
    } else {
        let k = (c - 1) as nat;
        digit_cells_upto(d, x, k) + if cell_lit(d, k) {
            seq![GlyphRect {
                x: (x + (k % 3) * 2) as u32,
                y: ((k / 3) * 2) as u32,
                w: 2,
                h: 2,
            }]
        } else {
            seq![]
        }
    }
}

/// The squares of digit `d` drawn at `x`, row by row.
pub open spec fn digit_rects(d: nat, x: int) -> Seq<GlyphRect> {
    digit_cells_upto(d, x, 15)
}

/// The bar of a minus sign drawn at `x`: one cell tall on the middle row,
/// as wide as a digit.
pub open spec fn minus_rect(x: int) -> GlyphRect {
    GlyphRect { x: x as u32, y: 4, w: 6, h: 2 }
}

/// Number of decimal digits of `m` (one for zero).
pub open spec fn digit_count(m: nat) -> nat
    decreases m,
{
    if m < 10 {
        1
    } else {
        1 + digit_count(m / 10)
    }
}

/// The squares of the decimal digits of `m`, most significant first, the
/// first glyph at `x` and each next one 8 px further right.
pub open spec fn digits_rects(m: nat, x: int) -> Seq<GlyphRect>
    decreases m,
{
    if m < 10 {
        digit_rects(m, x)
    } else {
        digits_rects(m / 10, x) + digit_rects(m % 10, x + 8 * digit_count(m / 10))
    }
}

/// Absolute value of `n`.
pub open spec fn abs(n: int) -> nat {
    if n < 0 {
        (-n) as nat
    } else {
        n as nat
    }
}

/// Number of glyphs drawn for `n`: its digits plus a leading minus sign
/// when negative.
pub open spec fn glyph_count(n: int) -> nat {
    digit_count(abs(n)) + if n < 0 { 1nat } else { 0nat }
}

/// The squares drawn for the integer `n`.
pub open spec fn number_rects(n: int) -> Seq<GlyphRect> {
    if n < 0 {
        seq![minus_rect(0)] + digits_rects(abs(n), 8)
    } else {
        digits_rects(abs(n), 0)
    }
}

/// Width, in px, of `n` drawn: each glyph 6 px wide, with 2 px between.
pub open spec fn number_width_spec(n: int) -> nat {
    (glyph_count(n) * 8 - 2) as nat
}

/// Ten to the power `k`.
pub open spec fn pow10(k: nat) -> nat
    decreases k,
{
    if k == 0 {
        1
    } else {
        10 * pow10((k - 1) as nat)
    }
}

proof fn lemma_digit_count_below(m: nat, k: nat)
    requires
        k >= 1,
        m < pow10(k),
    ensures
        1 <= digit_count(m) <= k,
    decreases k,
{
    reveal_with_fuel(pow10, 2);
    if m >= 10 {
        assert(k >= 2);
        lemma_digit_count_below(m / 10, (k - 1) as nat);
    }
}

proof fn lemma_digit_count_bounds(m: nat)
    requires
        m < 18446744073709551616,
    ensures
        1 <= digit_count(m) <= 20,
{
    reveal_with_fuel(pow10, 21);
    assert(pow10(20) == 100000000000000000000);
    lemma_digit_count_below(m, 20);
}

/// Append the squares of digit `digit` drawn at `x`.
pub fn push_digit(rects: &mut Vec<GlyphRect>, x: u32, digit: usize)
    requires
        digit < 10,
        x + 4 <= u32::MAX,
    ensures
        final(rects)@ == old(rects)@ + digit_rects(digit as nat, x as int),
{
    let ghost start = rects@;
    let mut row: usize = 0;
    while row < 5
        invariant
            row <= 5,
            digit < 10,
            x + 4 <= u32::MAX,
            rects@ == start + digit_cells_upto(digit as nat, x as int, (row * 3) as nat),
        decreases 5 - row,
    {
        let bits = digit_pattern_row(digit, row);
        let mut col: usize = 0;
        while col < 3
            invariant
                row < 5,
                col <= 3,
                digit < 10,
                x + 4 <= u32::MAX,
                bits == digit_pattern(digit as nat, row as nat),
                rects@ == start + digit_cells_upto(digit as nat, x as int, (row * 3 + col) as nat),
            decreases 3 - col,
        {
            let shift: u8 = (2 - col) as u8;
            let lit = (bits >> shift) & 1 == 1;
            proof {
                let c = (row * 3 + col) as nat;
                assert(c / 3 == row && c % 3 == col);
                assert(lit == cell_lit(digit as nat, c));
            }
            if lit {
                rects.push(GlyphRect { x: x + (col as u32) * 2, y: (row as u32) * 2, w: 2, h: 2 });
            }
            proof {
                assert(start + digit_cells_upto(digit as nat, x as int, (row * 3 + col + 1) as nat)
                    =~= rects@);
            }
            col = col + 1;
        }
        row = row + 1;
    }
}

/// Append the bar of a minus sign drawn at `x`.
pub fn push_minus(rects: &mut Vec<GlyphRect>, x: u32)
    ensures
        final(rects)@ == old(rects)@.push(minus_rect(x as int)),
{
    rects.push(GlyphRect { x, y: 4, w: DIGIT_WIDTH, h: DIGIT_CELL });
}

/// Append the squares of the decimal digits of `m`, the first glyph at `x`;
/// returns the position after the last glyph and its gap.
fn push_digits(rects: &mut Vec<GlyphRect>, x: u32, m: u64) -> (r: u32)
    requires
        x <= 8,
    ensures
        final(rects)@ == old(rects)@ + digits_rects(m as nat, x as int),
        r == x + 8 * digit_count(m as nat),
    decreases m,
{
    proof {
        lemma_digit_count_bounds(m as nat);
    }
    if m < 10 {
        push_digit(rects, x, m as usize);
        x + 8
    } else {
        proof {
            lemma_digit_count_bounds((m / 10) as nat);
        }
        let next = push_digits(rects, x, m / 10);
        push_digit(rects, next, (m % 10) as usize);
        next + 8
    }
}

/// Append the squares of the integer `number` (negative numbers get a
/// leading minus sign) drawn at the origin. Returns the total width drawn.
pub fn push_number(rects: &mut Vec<GlyphRect>, number: i64) -> (r: u32)
    ensures
        final(rects)@ == old(rects)@ + number_rects(number as int),
        r == number_width_spec(number as int),
{
    let mut cursor: u32 = 0;
    if number < 0 {
        push_minus(rects, cursor);
        cursor = cursor + DIGIT_WIDTH + DIGIT_GAP;
    }
    let magnitude: u64 = if number < 0 {
        (-(number as i128)) as u64
    } else {
        number as u64
    };
    let ghost before = rects@;
    let end = push_digits(rects, cursor, magnitude);
    proof {
        lemma_digit_count_bounds(magnitude as nat);
        if number < 0 {
            assert(rects@ =~= old(rects)@ + number_rects(number as int));
        }
    }
    end - DIGIT_GAP
}

/// Width, in screen px, that `push_number` draws for `number`.
pub fn number_width(number: i64) -> (r: u32)
    ensures
        r == number_width_spec(number as int),
{
    let mut m: u64 = if number < 0 {
        (-(number as i128)) as u64
    } else {
        number as u64
    };
    let mut digits: u32 = 1;
    proof {
        lemma_digit_count_bounds(m as nat);
    }
    while m >= 10
        invariant
            digits + digit_count(m as nat) == 1 + digit_count(abs(number as int)),
            digit_count(abs(number as int)) <= 20,
            digits >= 1,
        decreases m,
    {
        m = m / 10;
        digits = digits + 1;
    }
    let glyphs = if number < 0 {
        digits + 1
    } else {
        digits
    };
    glyphs * DIGIT_WIDTH + (glyphs - 1) * DIGIT_GAP
}

/// The squares of digit `d` drawn at `x` lie within the glyph, from `x` to
/// `x + 6`.
proof fn lemma_digit_cells_within(d: nat, x: int, c: nat)
    requires
        0 <= x,
        x + 6 <= u32::MAX,
    ensures
        forall|m: int|
            0 <= m < digit_cells_upto(d, x, c).len() ==> {
                let r = #[trigger] digit_cells_upto(d, x, c)[m];
                x <= r.x && r.x + r.w <= x + 6
            },
    decreases c,
{
    if c > 0 {
        let k = (c - 1) as nat;
        lemma_digit_cells_within(d, x, k);
        let a = digit_cells_upto(d, x, k);
        let s = digit_cells_upto(d, x, c);
        assert forall|m: int| 0 <= m < s.len() implies {
            let r = #[trigger] s[m];
            x <= r.x && r.x + r.w <= x + 6
        } by {
            if m < a.len() {
                assert(s[m] == a[m]);
            } else {
                assert(k % 3 <= 2);
                assert(s[m].x == (x + (k % 3) * 2) as u32);
            }
        }
    }
}

/// The squares of the digits of `m` drawn from `x` lie within the drawn
/// width, from `x` to `x + 8 * digit_count(m) - 2`.
proof fn lemma_digits_within(m: nat, x: int)
    requires
        0 <= x,
        x + 8 * digit_count(m) <= u32::MAX,
    ensures
        forall|i: int|
            0 <= i < digits_rects(m, x).len() ==> {
                let r = #[trigger] digits_rects(m, x)[i];
                x <= r.x && r.x + r.w <= x + 8 * digit_count(m) - 2
            },
    decreases m,
{
    if m < 10 {
        lemma_digit_cells_within(m, x, 15);
    } else {
        lemma_digits_within(m / 10, x);
        let x2 = x + 8 * digit_count(m / 10);
        lemma_digit_cells_within(m % 10, x2, 15);
        let a = digits_rects(m / 10, x);
        let b = digit_rects(m % 10, x2);
        let s = digits_rects(m, x);
        assert(s == a + b);
        assert forall|i: int| 0 <= i < s.len() implies {
            let r = #[trigger] s[i];
            x <= r.x && r.x + r.w <= x + 8 * digit_count(m) - 2
        } by {
            if i < a.len() {
                assert(s[i] == a[i]);
            } else {
                assert(s[i] == b[i - a.len()]);
            }
        }
    }
}

/// The width `push_number` returns is `number_width` of the same number,
/// and the glyph squares all lie within that width.
pub proof fn law_push_number_width_matches(n: int)
    requires
        i64::MIN <= n <= i64::MAX,
    ensures
        number_width_spec(n) == glyph_count(n) * 6 + (glyph_count(n) - 1) * 2,
        glyph_count(n) >= 1,
        forall|i: int|
            0 <= i < number_rects(n).len() ==> (#[trigger] number_rects(n)[i]).x + number_rects(n)[i].w
                <= number_width_spec(n),
{
    lemma_digit_count_bounds(abs(n));
    let rs = number_rects(n);
    if n < 0 {
        lemma_digits_within(abs(n), 8);
        let d = digits_rects(abs(n), 8);
        assert forall|i: int| 0 <= i < rs.len() implies (#[trigger] rs[i]).x + rs[i].w <= number_width_spec(n) by {
            if i > 0 {
                assert(rs[i] == d[i - 1]);
            }
        }
    } else {
        lemma_digits_within(abs(n), 0);
    }
}

} // verus!
