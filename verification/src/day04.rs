//! A letter grid: count every straight occurrence of the word XMAS in any of
//! the eight directions, and every X-shaped pair of MAS diagonals.

use vstd::prelude::*;

use crate::parsing::{spec_lines, split_lines, lemma_lines_count};
use vstd::string::StringSliceAdditionalSpecFns;

verus! {

/// The rows of a parsed grid.
pub open spec fn grid_view(rows: Seq<Vec<u8>>) -> Seq<Seq<u8>> {
    rows.map_values(|r: Vec<u8>| r@)
}

/// The byte at column `x` of row `y`, if the cell exists.
pub open spec fn at(g: Seq<Seq<u8>>, y: int, x: int) -> Option<u8> {
    if 0 <= y < g.len() && 0 <= x < g[y].len() {
        Some(g[y][x])
    } else {
        None
    }
}

/// The width the walk uses: that of the first row.
pub open spec fn grid_width(g: Seq<Seq<u8>>) -> int {
    if g.len() == 0 {
        0
    } else {
        g[0].len() as int
    }
}

pub open spec fn dir_dx(d: int) -> int {
    d / 3 - 1
}

pub open spec fn dir_dy(d: int) -> int {
    d % 3 - 1
}

/// The letters X, M, A, S.
pub open spec fn xmas_char(k: int) -> u8 {
    if k == 0 {
        88
    } else if k == 1 {
        77
    } else if k == 2 {
        65
    } else {
        83
    }
}

/// XMAS spelled from `(x, y)` along direction `d` of nine (the middle one,
/// standing still, never matches).
pub open spec fn xmas_at(g: Seq<Seq<u8>>, x: int, y: int, d: int) -> bool {
    forall|k: int|
        0 <= k < 4 ==> at(g, y + k * dir_dy(d), x + k * dir_dx(d)) == Some(xmas_char(k))
}

pub open spec fn count_dirs(g: Seq<Seq<u8>>, x: int, y: int, d: int) -> nat
    decreases d,
{
    if d <= 0 {
        0
    } else {
        count_dirs(g, x, y, d - 1) + (if xmas_at(g, x, y, d - 1) {
            1nat
        } else {
            0nat
        })
    }
}

pub open spec fn count_row(g: Seq<Seq<u8>>, y: int, x: int) -> nat
    decreases x,
{
    if x <= 0 {
        0
    } else {
        count_row(g, y, x - 1) + count_dirs(g, x - 1, y, 9)
    }
}

pub open spec fn count_grid(g: Seq<Seq<u8>>, y: int) -> nat
    decreases y,
{
    if y <= 0 {
        0
    } else {
        count_grid(g, y - 1) + count_row(g, y - 1, grid_width(g))
    }
}

/// The number of XMAS occurrences, or nothing when it leaves 32 bits.
pub open spec fn spec_part_one(s: Seq<u8>) -> Option<u32> {
    let g = spec_lines(s);
    let total = count_grid(g, g.len() as int);
    if total <= u32::MAX as nat {
        Some(total as u32)
    } else {
        None
    }
}

// The X-shaped pattern: two MAS diagonals crossing at the A, checked in the
// four flips of a three-by-three box.
pub open spec fn pat_x(k: int) -> int {
    if k == 0 {
        0
    } else if k == 1 {
        1
    } else if k == 2 {
        2
    } else if k == 3 {
        0
    } else {
        2
    }
}

pub open spec fn pat_y(k: int) -> int {
    if k == 0 {
        0
    } else if k == 1 {
        1
    } else if k == 2 {
        2
    } else if k == 3 {
        2
    } else {
        0
    }
}

/// The letters M, A, S, M, S.
pub open spec fn pat_char(k: int) -> u8 {
    if k == 0 {
        77
    } else if k == 1 {
        65
    } else if k == 2 {
        83
    } else if k == 3 {
        77
    } else {
        83
    }
}

pub open spec fn flip_x(f: int) -> bool {
    f == 1 || f == 3
}

pub open spec fn flip_y(f: int) -> bool {
    f == 2 || f == 3
}

/// The pattern offset under flip `f`: equal flips transpose the box, then
/// each set flip mirrors its axis.
pub open spec fn trans_x(f: int, k: int) -> int {
    let px = if flip_x(f) == flip_y(f) {
        pat_y(k)
    } else {
        pat_x(k)
    };
    if flip_x(f) {
        2 - px
    } else {
        px
    }
}

pub open spec fn trans_y(f: int, k: int) -> int {
    let py = if flip_x(f) == flip_y(f) {
        pat_x(k)
    } else {
        pat_y(k)
    };
    if flip_y(f) {
        2 - py
    } else {
        py
    }
}

pub open spec fn xpat_at(g: Seq<Seq<u8>>, x: int, y: int, f: int) -> bool {
    forall|k: int|
        0 <= k < 5 ==> at(g, y + trans_y(f, k), x + trans_x(f, k)) == Some(pat_char(k))
}

pub open spec fn count_flips(g: Seq<Seq<u8>>, x: int, y: int, f: int) -> nat
    decreases f,
{
    if f <= 0 {
        0
    } else {
        count_flips(g, x, y, f - 1) + (if xpat_at(g, x, y, f - 1) {
            1nat
        } else {
            0nat
        })
    }
}

pub open spec fn count_row_x(g: Seq<Seq<u8>>, y: int, x: int) -> nat
    decreases x,
{
    if x <= 0 {
        0
    } else {
        count_row_x(g, y, x - 1) + count_flips(g, x - 1, y, 4)
    }
}

pub open spec fn count_grid_x(g: Seq<Seq<u8>>, y: int) -> nat
    decreases y,
{
    if y <= 0 {
        0
    } else {
        count_grid_x(g, y - 1) + count_row_x(g, y - 1, grid_width(g))
    }
}

/// The number of X-shaped MAS pairs, or nothing when it leaves 32 bits.
pub open spec fn spec_part_two(s: Seq<u8>) -> Option<u32> {
    let g = spec_lines(s);
    let total = count_grid_x(g, g.len() as int);
    if total <= u32::MAX as nat {
        Some(total as u32)
    } else {
        None
    }
}

/// Look a cell up with signed coordinates.
fn cell(g: &Vec<Vec<u8>>, y: i64, x: i64) -> (r: Option<u8>)
    requires
        g@.len() < 0x40000000,
        forall|j: int| 0 <= j < g@.len() ==> #[trigger] g@[j]@.len() < 0x40000000,
    ensures
        r == at(grid_view(g@), y as int, x as int),
{
    if y < 0 || x < 0 || y >= 0x40000000 || x >= 0x40000000 {
        return None;
    }
    let yy = y as usize;
    let xx = x as usize;
    if yy >= g.len() {
        return None;
    }
    proof {
        assert(grid_view(g@)[y as int] == g@[y as int]@);
    }
    let row = &g[yy];
    if xx >= row.len() {
        return None;
    }
    Some(row[xx])
}

/// XMAS spelled from `(x, y)` along direction `d`.
fn check_xmas(g: &Vec<Vec<u8>>, x: usize, y: usize, d: usize) -> (r: bool)
    requires
        d < 9,
        x < 0x40000000,
        y < 0x40000000,
        g@.len() < 0x40000000,
        forall|j: int| 0 <= j < g@.len() ==> #[trigger] g@[j]@.len() < 0x40000000,
    ensures
        r == xmas_at(grid_view(g@), x as int, y as int, d as int),
{
    let dx: i64 = (d / 3) as i64 - 1;
    let dy: i64 = (d % 3) as i64 - 1;
    let mut k: usize = 0;
    while k < 4
        invariant
            k <= 4,
            d < 9,
            x < 0x40000000,
            y < 0x40000000,
            dx as int == dir_dx(d as int),
            dy as int == dir_dy(d as int),
            g@.len() < 0x40000000,
            forall|j: int| 0 <= j < g@.len() ==> #[trigger] g@[j]@.len() < 0x40000000,
            forall|m: int|
                0 <= m < k ==> at(
                    grid_view(g@),
                    y + m * dir_dy(d as int),
                    x + m * dir_dx(d as int),
                ) == Some(xmas_char(m)),
        decreases 4 - k,
    {
        proof {
            assert(-1 <= dir_dy(d as int) <= 1);
            assert(-1 <= dir_dx(d as int) <= 1);
            assert((k as int) * (dy as int) <= 4 && (k as int) * (dy as int) >= -4)
                by (nonlinear_arith)
                requires
                    0 <= k <= 4,
                    -1 <= dy <= 1,
            ;
            assert((k as int) * (dx as int) <= 4 && (k as int) * (dx as int) >= -4)
                by (nonlinear_arith)
                requires
                    0 <= k <= 4,
                    -1 <= dx <= 1,
            ;
        }
        let yy = y as i64 + (k as i64) * dy;
        let xx = x as i64 + (k as i64) * dx;
        let want: u8 = if k == 0 {
            88
        } else if k == 1 {
            77
        } else if k == 2 {
            65
        } else {
            83
        };
        proof {
            assert(yy as int == y + (k as int) * dir_dy(d as int));
            assert(xx as int == x + (k as int) * dir_dx(d as int));
            assert(want == xmas_char(k as int));
        }
        match cell(g, yy, xx) {
            Some(c) => {
                if c != want {
                    proof {
                        assert(at(
                            grid_view(g@),
                            y + (k as int) * dir_dy(d as int),
                            x + (k as int) * dir_dx(d as int),
                        ) == Some(c));
                    }
                    return false;
                }
            },
            None => {
                proof {
                    assert(at(
                        grid_view(g@),
                        y + (k as int) * dir_dy(d as int),
                        x + (k as int) * dir_dx(d as int),
                    ) is None);
                }
                return false;
            },
        }
        k += 1;
    }
    true
}

/// The X-shaped pattern at `(x, y)` under flip `f`.
fn check_xpat(g: &Vec<Vec<u8>>, x: usize, y: usize, f: usize) -> (r: bool)
    requires
        f < 4,
        x < 0x40000000,
        y < 0x40000000,
        g@.len() < 0x40000000,
        forall|j: int| 0 <= j < g@.len() ==> #[trigger] g@[j]@.len() < 0x40000000,
    ensures
        r == xpat_at(grid_view(g@), x as int, y as int, f as int),
{
    let fx = f == 1 || f == 3;
    let fy = f == 2 || f == 3;
    let mut k: usize = 0;
    while k < 5
        invariant
            k <= 5,
            f < 4,
            x < 0x40000000,
            y < 0x40000000,
            fx == flip_x(f as int),
            fy == flip_y(f as int),
            g@.len() < 0x40000000,
            forall|j: int| 0 <= j < g@.len() ==> #[trigger] g@[j]@.len() < 0x40000000,
            forall|m: int|
                0 <= m < k ==> at(
                    grid_view(g@),
                    y + trans_y(f as int, m),
                    x + trans_x(f as int, m),
                ) == Some(pat_char(m)),
        decreases 5 - k,
    {
        let (px, py): (u8, u8) = if k == 0 {
            (0, 0)
        } else if k == 1 {
            (1, 1)
        } else if k == 2 {
            (2, 2)
        } else if k == 3 {
            (0, 2)
        } else {
            (2, 0)
        };
        let want: u8 = if k == 0 {
            77
        } else if k == 1 {
            65
        } else if k == 2 {
            83
        } else if k == 3 {
            77
        } else {
            83
        };
        let (bx, by) = if fx == fy {
            (py, px)
        } else {
            (px, py)
        };
        let tx = if fx {
            2 - bx
        } else {
            bx
        };
        let ty = if fy {
            2 - by
        } else {
            by
        };
        proof {
            assert(tx as int == trans_x(f as int, k as int));
            assert(ty as int == trans_y(f as int, k as int));
        }
        let yy = y as i64 + ty as i64;
        let xx = x as i64 + tx as i64;
        proof {
            assert(yy as int == y + trans_y(f as int, k as int));
            assert(xx as int == x + trans_x(f as int, k as int));
            assert(want == pat_char(k as int));
        }
        match cell(g, yy, xx) {
            Some(c) => {
                if c != want {
                    proof {
                        assert(at(
                            grid_view(g@),
                            y + trans_y(f as int, k as int),
                            x + trans_x(f as int, k as int),
                        ) == Some(c));
                    }
                    return false;
                }
            },
            None => {
                proof {
                    assert(at(
                        grid_view(g@),
                        y + trans_y(f as int, k as int),
                        x + trans_x(f as int, k as int),
                    ) is None);
                }
                return false;
            },
        }
        k += 1;
    }
    true
}

proof fn lemma_count_grid_mono(g: Seq<Seq<u8>>, a: int, b: int, xshape: bool)
    requires
        0 <= a <= b,
    ensures
        xshape ==> count_grid_x(g, a) <= count_grid_x(g, b),
        !xshape ==> count_grid(g, a) <= count_grid(g, b),
    decreases b - a,
{
    if a < b {
        lemma_count_grid_mono(g, a, b - 1, xshape);
    }
}

proof fn lemma_count_row_mono(g: Seq<Seq<u8>>, y: int, a: int, b: int, xshape: bool)
    requires
        0 <= a <= b,
    ensures
        xshape ==> count_row_x(g, y, a) <= count_row_x(g, y, b),
        !xshape ==> count_row(g, y, a) <= count_row(g, y, b),
    decreases b - a,
{
    if a < b {
        lemma_count_row_mono(g, y, a, b - 1, xshape);
    }
}

/// Count the XMAS occurrences over every cell and direction.
pub fn part_one(input: &str) -> (r: Option<u32>)
    requires
        input.spec_bytes().len() < 0x40000000,
    ensures
        r == spec_part_one(input.spec_bytes()),
{
    let ghost gs = spec_lines(input.spec_bytes());
    proof {
        lemma_lines_count(input.spec_bytes(), 0);
    }
    let g = split_lines(input);
    proof {
        assert(grid_view(g@) =~= gs);
    }
    let h = g.len();
    let w = if h == 0 {
        0
    } else {
        g[0].len()
    };
    proof {
        assert(w as int == grid_width(gs));
        assert forall|j: int| 0 <= j < g@.len() implies #[trigger] g@[j]@.len()
            < 0x40000000 by {
            lemma_line_short(input.spec_bytes(), j);
        }
    }
    let mut total: u64 = 0;
    let mut y: usize = 0;
    while y < h
        invariant
            gs == spec_lines(input.spec_bytes()),
            grid_view(g@) == gs,
            h == g@.len(),
            h < 0x40000000,
            w as int == grid_width(gs),
            w < 0x40000000,
            forall|j: int| 0 <= j < g@.len() ==> #[trigger] g@[j]@.len() < 0x40000000,
            y <= h,
            total as nat == count_grid(gs, y as int),
            total <= u32::MAX as u64,
        decreases h - y,
    {
        let mut x: usize = 0;
        while x < w
            invariant
                gs == spec_lines(input.spec_bytes()),
                grid_view(g@) == gs,
                h == g@.len(),
                h < 0x40000000,
                w as int == grid_width(gs),
                forall|j: int|
                    0 <= j < g@.len() ==> #[trigger] g@[j]@.len() < 0x40000000,
                y < h,
                x <= w,
                total as nat == count_grid(gs, y as int) + count_row(gs, y as int, x as int),
                total <= u32::MAX as u64,
            decreases w - x,
        {
            let mut c: u64 = 0;
            let mut d: usize = 0;
            while d < 9
                invariant
                    gs == spec_lines(input.spec_bytes()),
                    grid_view(g@) == gs,
                    h == g@.len(),
                    h < 0x40000000,
                    forall|j: int|
                        0 <= j < g@.len() ==> #[trigger] g@[j]@.len() < 0x40000000,
                    y < h,
                    x < 0x40000000,
                    d <= 9,
                    c as nat == count_dirs(gs, x as int, y as int, d as int),
                    c <= d as u64,
                decreases 9 - d,
            {
                if check_xmas(&g, x, y, d) {
                    c += 1;
                }
                d += 1;
            }
            total = total + c;
            x += 1;
            if total > u32::MAX as u64 {
                proof {
                    lemma_count_row_mono(gs, y as int, x as int, grid_width(gs), false);
                    lemma_count_grid_step(gs, y as int);
                    lemma_count_grid_mono(gs, y + 1, gs.len() as int, false);
                }
                return None;
            }
        }
        proof {
            lemma_count_grid_step(gs, y as int);
        }
        y += 1;
    }
    Some(total as u32)
}

/// One more row folds its full count into the grid total.
proof fn lemma_count_grid_step(g: Seq<Seq<u8>>, y: int)
    requires
        0 <= y,
    ensures
        count_grid(g, y + 1) == count_grid(g, y) + count_row(g, y, grid_width(g)),
        count_grid_x(g, y + 1) == count_grid_x(g, y) + count_row_x(g, y, grid_width(g)),
{
}

/// Every line is at most as long as the input.
pub(crate) proof fn lemma_line_short(s: Seq<u8>, j: int)
    requires
        0 <= j < spec_lines(s).len(),
    ensures
        spec_lines(s)[j].len() <= s.len(),
{
    lemma_lines_short(s, 0, j);
}

proof fn lemma_lines_short(s: Seq<u8>, k: int, j: int)
    requires
        0 <= k <= s.len(),
        0 <= j < crate::parsing::lines_from(s, k).len(),
    ensures
        crate::parsing::lines_from(s, k)[j].len() <= s.len(),
    decreases s.len() + 1 - k,
{
    crate::parsing::lemma_next_newline_bounds(s, k);
    if k < s.len() {
        let e = crate::parsing::next_newline(s, k);
        if j > 0 {
            assert(crate::parsing::lines_from(s, k).len() == 1 + crate::parsing::lines_from(
                s,
                e + 1,
            ).len());
            if e + 1 > s.len() {
                assert(crate::parsing::lines_from(s, e + 1).len() == 0);
                assert(false);
            }
            lemma_lines_short(s, e + 1, j - 1);
        }
    }
}

/// Count the X-shaped MAS pairs over every cell and flip.
pub fn part_two(input: &str) -> (r: Option<u32>)
    requires
        input.spec_bytes().len() < 0x40000000,
    ensures
        r == spec_part_two(input.spec_bytes()),
{
    let ghost gs = spec_lines(input.spec_bytes());
    proof {
        lemma_lines_count(input.spec_bytes(), 0);
    }
    let g = split_lines(input);
    proof {
        assert(grid_view(g@) =~= gs);
    }
    let h = g.len();
    let w = if h == 0 {
        0
    } else {
        g[0].len()
    };
    proof {
        assert(w as int == grid_width(gs));
        assert forall|j: int| 0 <= j < g@.len() implies #[trigger] g@[j]@.len()
            < 0x40000000 by {
            lemma_line_short(input.spec_bytes(), j);
        }
    }
    let mut total: u64 = 0;
    let mut y: usize = 0;
    while y < h
        invariant
            gs == spec_lines(input.spec_bytes()),
            grid_view(g@) == gs,
            h == g@.len(),
            h < 0x40000000,
            w as int == grid_width(gs),
            w < 0x40000000,
            forall|j: int| 0 <= j < g@.len() ==> #[trigger] g@[j]@.len() < 0x40000000,
            y <= h,
            total as nat == count_grid_x(gs, y as int),
            total <= u32::MAX as u64,
        decreases h - y,
    {
        let mut x: usize = 0;
        while x < w
            invariant
                gs == spec_lines(input.spec_bytes()),
                grid_view(g@) == gs,
                h == g@.len(),
                h < 0x40000000,
                w as int == grid_width(gs),
                forall|j: int|
                    0 <= j < g@.len() ==> #[trigger] g@[j]@.len() < 0x40000000,
                y < h,
                x <= w,
                total as nat == count_grid_x(gs, y as int) + count_row_x(gs, y as int, x as int),
                total <= u32::MAX as u64,
            decreases w - x,
        {
            let mut c: u64 = 0;
            let mut f: usize = 0;
            while f < 4
                invariant
                    gs == spec_lines(input.spec_bytes()),
                    grid_view(g@) == gs,
                    h == g@.len(),
                    h < 0x40000000,
                    forall|j: int|
                        0 <= j < g@.len() ==> #[trigger] g@[j]@.len() < 0x40000000,
                    y < h,
                    x < 0x40000000,
                    f <= 4,
                    c as nat == count_flips(gs, x as int, y as int, f as int),
                    c <= f as u64,
                decreases 4 - f,
            {
                if check_xpat(&g, x, y, f) {
                    c += 1;
                }
                f += 1;
            }
            total = total + c;
            x += 1;
            if total > u32::MAX as u64 {
                proof {
                    lemma_count_row_mono(gs, y as int, x as int, grid_width(gs), true);
                    lemma_count_grid_step(gs, y as int);
                    lemma_count_grid_mono(gs, y + 1, gs.len() as int, true);
                }
                return None;
            }
        }
        proof {
            lemma_count_grid_step(gs, y as int);
        }
        y += 1;
    }
    Some(total as u32)
}

} // verus!
