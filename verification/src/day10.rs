//! A topographic map of digit heights: a trail climbs from a zero to a
//! nine, one height at a time, stepping only up, down, left or right.  A
//! trailhead's score counts the distinct nines it can reach; its rating
//! counts the distinct trails to them.

use vstd::prelude::*;

use crate::day04::{at, grid_view};
use crate::parsing::{spec_lines, split_lines};
use vstd::string::StringSliceAdditionalSpecFns;

verus! {

/// The height at a cell, or -1 outside the map.
pub open spec fn height(g: Seq<Seq<u8>>, y: int, x: int) -> int {
    match at(g, y, x) {
        Some(c) => if 48 <= c <= 57 {
            c - 48
        } else {
            -1
        },
        None => -1,
    }
}

/// Every cell of the map is a digit, as the original's parse insists.
pub open spec fn all_digits(g: Seq<Seq<u8>>) -> bool {
    forall|y: int, x: int|
        0 <= y < g.len() && 0 <= x < g[y].len() ==> height(g, y, x) >= 0
}

/// Whether a trail from `(x, y)` reaches the nine at `(tx, ty)`, climbing
/// one height per step.
pub open spec fn reaches(g: Seq<Seq<u8>>, x: int, y: int, tx: int, ty: int) -> bool
    decreases 10 - height(g, y, x),
    via reaches_decreases
{
    let h = height(g, y, x);
    if h >= 9 || h < 0 {
        h == 9 && x == tx && y == ty
    } else {
        ||| (height(g, y - 1, x) == h + 1 && reaches(g, x, y - 1, tx, ty))
        ||| (height(g, y + 1, x) == h + 1 && reaches(g, x, y + 1, tx, ty))
        ||| (height(g, y, x - 1) == h + 1 && reaches(g, x - 1, y, tx, ty))
        ||| (height(g, y, x + 1) == h + 1 && reaches(g, x + 1, y, tx, ty))
    }
}

#[via_fn]
proof fn reaches_decreases(g: Seq<Seq<u8>>, x: int, y: int, tx: int, ty: int) {
}

/// How many distinct trails climb from `(x, y)` to any nine.
pub open spec fn trails(g: Seq<Seq<u8>>, x: int, y: int) -> nat
    decreases 10 - height(g, y, x),
    via trails_decreases
{
    let h = height(g, y, x);
    if h >= 9 || h < 0 {
        if h == 9 {
            1
        } else {
            0
        }
    } else {
        (if height(g, y - 1, x) == h + 1 {
            trails(g, x, y - 1)
        } else {
            0
        }) + (if height(g, y + 1, x) == h + 1 {
            trails(g, x, y + 1)
        } else {
            0
        }) + (if height(g, y, x - 1) == h + 1 {
            trails(g, x - 1, y)
        } else {
            0
        }) + (if height(g, y, x + 1) == h + 1 {
            trails(g, x + 1, y)
        } else {
            0
        })
    }
}

#[via_fn]
proof fn trails_decreases(g: Seq<Seq<u8>>, x: int, y: int) {
}

/// The nines a trailhead reaches, counted over the first `ty` rows and,
/// within the last of them, the first `tx` cells.
pub open spec fn score_row(g: Seq<Seq<u8>>, x: int, y: int, ty: int, tx: int) -> nat
    decreases tx,
{
    if tx <= 0 {
        0
    } else {
        score_row(g, x, y, ty, tx - 1) + (if reaches(g, x, y, tx - 1, ty) {
            1nat
        } else {
            0nat
        })
    }
}

pub open spec fn score_rows(g: Seq<Seq<u8>>, x: int, y: int, ty: int) -> nat
    decreases ty,
{
    if ty <= 0 || ty > g.len() {
        0
    } else {
        score_rows(g, x, y, ty - 1) + score_row(g, x, y, ty - 1, g[ty - 1].len() as int)
    }
}

/// A trailhead's score: the number of nines it reaches.
pub open spec fn score(g: Seq<Seq<u8>>, x: int, y: int) -> nat {
    score_rows(g, x, y, g.len() as int)
}

/// Scores or ratings summed over the trailheads of the first rows.
pub open spec fn total_row(g: Seq<Seq<u8>>, y: int, x: int, rating: bool) -> nat
    decreases x,
{
    if x <= 0 {
        0
    } else {
        total_row(g, y, x - 1, rating) + (if height(g, y, x - 1) == 0 {
            if rating {
                trails(g, x - 1, y)
            } else {
                score(g, x - 1, y)
            }
        } else {
            0
        })
    }
}

pub open spec fn total_rows(g: Seq<Seq<u8>>, y: int, rating: bool) -> nat
    decreases y,
{
    if y <= 0 || y > g.len() {
        0
    } else {
        total_rows(g, y - 1, rating) + total_row(g, y - 1, g[y - 1].len() as int, rating)
    }
}

/// The summed scores of all trailheads, wrapped into 32 bits as the
/// original's cast of its visit count does.
pub open spec fn spec_part_one(s: Seq<u8>) -> Option<u32> {
    let g = spec_lines(s);
    if all_digits(g) {
        Some((total_rows(g, g.len() as int, false) % 0x100000000) as u32)
    } else {
        None
    }
}

/// The summed ratings of all trailheads, or nothing when the count leaves
/// 32 bits.
pub open spec fn spec_part_two(s: Seq<u8>) -> Option<u32> {
    let g = spec_lines(s);
    if all_digits(g) && total_rows(g, g.len() as int, true) <= u32::MAX as nat {
        Some(total_rows(g, g.len() as int, true) as u32)
    } else {
        None
    }
}

/// The height at a cell, read off the parsed rows.
fn cell_height(g: &Vec<Vec<u8>>, y: i64, x: i64) -> (r: i8)
    requires
        g@.len() < 0x40000000,
        forall|j: int| 0 <= j < g@.len() ==> #[trigger] g@[j]@.len() < 0x40000000,
    ensures
        r as int == height(grid_view(g@), y as int, x as int),
{
    if y < 0 || x < 0 || y >= 0x40000000 || x >= 0x40000000 {
        return -1;
    }
    let yy = y as usize;
    let xx = x as usize;
    if yy >= g.len() {
        return -1;
    }
    proof {
        assert(grid_view(g@)[y as int] == g@[y as int]@);
    }
    let row = &g[yy];
    if xx >= row.len() {
        return -1;
    }
    let c = row[xx];
    if 48 <= c && c <= 57 {
        (c - 48) as i8
    } else {
        -1
    }
}

/// Whether a trail from `(x, y)` reaches the nine at `(tx, ty)`.
fn reaches_exec(g: &Vec<Vec<u8>>, x: i64, y: i64, tx: i64, ty: i64) -> (r: bool)
    requires
        g@.len() < 0x40000000,
        forall|j: int| 0 <= j < g@.len() ==> #[trigger] g@[j]@.len() < 0x40000000,
        -1 <= x < 0x40000000,
        -1 <= y < 0x40000000,
    ensures
        r == reaches(grid_view(g@), x as int, y as int, tx as int, ty as int),
    decreases 10 - height(grid_view(g@), y as int, x as int),
{
    let h = cell_height(g, y, x);
    if h >= 9 || h < 0 {
        h == 9 && x == tx && y == ty
    } else {
        if cell_height(g, y - 1, x) == h + 1 && reaches_exec(g, x, y - 1, tx, ty) {
            return true;
        }
        if cell_height(g, y + 1, x) == h + 1 && reaches_exec(g, x, y + 1, tx, ty) {
            return true;
        }
        if cell_height(g, y, x - 1) == h + 1 && reaches_exec(g, x - 1, y, tx, ty) {
            return true;
        }
        if cell_height(g, y, x + 1) == h + 1 && reaches_exec(g, x + 1, y, tx, ty) {
            return true;
        }
        false
    }
}

pub open spec fn pow4n(k: nat) -> nat
    decreases k,
{
    if k == 0 {
        1
    } else {
        4 * pow4n((k - 1) as nat)
    }
}

/// Trails never multiply past four branchings per climbed height.
proof fn lemma_trails_bound(g: Seq<Seq<u8>>, x: int, y: int)
    ensures
        trails(g, x, y) <= 0x40000,
    decreases 10 - height(g, y, x),
{
    lemma_trails_cap(g, x, y);
    lemma_pow4n_mono(cap_exp(height(g, y, x)), 9);
    assert(pow4n(9) == 0x40000) by {
        reveal_with_fuel(pow4n, 10);
    }
}

/// The exponent the cap uses for a cell of height `h`.
pub open spec fn cap_exp(h: int) -> nat {
    if 0 <= h <= 9 {
        (9 - h) as nat
    } else {
        0
    }
}

proof fn lemma_pow4n_mono(a: nat, b: nat)
    requires
        a <= b,
    ensures
        pow4n(a) <= pow4n(b),
    decreases b,
{
    if a < b {
        lemma_pow4n_mono(a, (b - 1) as nat);
        lemma_pow4n_pos((b - 1) as nat);
        assert(pow4n(b) == 4 * pow4n((b - 1) as nat));
        assert(pow4n((b - 1) as nat) <= 4 * pow4n((b - 1) as nat)) by (nonlinear_arith)
            requires
                pow4n((b - 1) as nat) >= 0,
        ;
    }
}

proof fn lemma_pow4n_pos(k: nat)
    ensures
        pow4n(k) >= 1,
    decreases k,
{
    if k > 0 {
        lemma_pow4n_pos((k - 1) as nat);
    }
}

/// Each climbed height at most quadruples the trail count.
proof fn lemma_trails_cap(g: Seq<Seq<u8>>, x: int, y: int)
    ensures
        trails(g, x, y) <= pow4n(cap_exp(height(g, y, x))),
    decreases 10 - height(g, y, x),
{
    let h = height(g, y, x);
    if !(h >= 9 || h < 0) {
        assert(pow4n(cap_exp(h)) == 4 * pow4n(cap_exp(h + 1)));
        if height(g, y - 1, x) == h + 1 {
            lemma_trails_cap(g, x, y - 1);
        }
        if height(g, y + 1, x) == h + 1 {
            lemma_trails_cap(g, x, y + 1);
        }
        if height(g, y, x - 1) == h + 1 {
            lemma_trails_cap(g, x - 1, y);
        }
        if height(g, y, x + 1) == h + 1 {
            lemma_trails_cap(g, x + 1, y);
        }
    } else {
        lemma_pow4n_pos(cap_exp(h));
    }
}

/// Count the distinct trails from `(x, y)` up to the nines.
fn trails_exec(g: &Vec<Vec<u8>>, x: i64, y: i64) -> (r: u64)
    requires
        g@.len() < 0x40000000,
        forall|j: int| 0 <= j < g@.len() ==> #[trigger] g@[j]@.len() < 0x40000000,
        -1 <= x < 0x40000000,
        -1 <= y < 0x40000000,
    ensures
        r as nat == trails(grid_view(g@), x as int, y as int),
        r <= 0x40000,
    decreases 10 - height(grid_view(g@), y as int, x as int),
{
    proof {
        lemma_trails_bound(grid_view(g@), x as int, y as int);
    }
    let h = cell_height(g, y, x);
    if h >= 9 || h < 0 {
        if h == 9 {
            1
        } else {
            0
        }
    } else {
        let mut total: u64 = 0;
        if cell_height(g, y - 1, x) == h + 1 {
            total += trails_exec(g, x, y - 1);
        }
        if cell_height(g, y + 1, x) == h + 1 {
            total += trails_exec(g, x, y + 1);
        }
        if cell_height(g, y, x - 1) == h + 1 {
            total += trails_exec(g, x - 1, y);
        }
        if cell_height(g, y, x + 1) == h + 1 {
            total += trails_exec(g, x + 1, y);
        }
        total
    }
}

/// A trailhead's score: count the nines it reaches, cell by cell.
fn score_exec(g: &Vec<Vec<u8>>, x: i64, y: i64) -> (r: u64)
    requires
        g@.len() < 0x40000000,
        forall|j: int| 0 <= j < g@.len() ==> #[trigger] g@[j]@.len() < 0x40000000,
        -1 <= x < 0x40000000,
        -1 <= y < 0x40000000,
    ensures
        r as nat == score(grid_view(g@), x as int, y as int),
        r < 0x4000000000000000,
{
    let ghost gs = grid_view(g@);
    let rows = g.len();
    let mut total: u64 = 0;
    let mut ty: usize = 0;
    while ty < rows
        invariant
            gs == grid_view(g@),
            rows == g@.len(),
            rows < 0x40000000,
            forall|j: int| 0 <= j < g@.len() ==> #[trigger] g@[j]@.len() < 0x40000000,
            -1 <= x < 0x40000000,
            -1 <= y < 0x40000000,
            ty <= rows,
            total as nat == score_rows(gs, x as int, y as int, ty as int),
            total <= (ty as u64) * 0x40000000,
        decreases rows - ty,
    {
        let width = g[ty].len();
        proof {
            assert(gs[ty as int] == g@[ty as int]@);
        }
        let mut tx: usize = 0;
        let mut rowc: u64 = 0;
        while tx < width
            invariant
                gs == grid_view(g@),
                rows == g@.len(),
                rows < 0x40000000,
                forall|j: int| 0 <= j < g@.len() ==> #[trigger] g@[j]@.len() < 0x40000000,
                -1 <= x < 0x40000000,
                -1 <= y < 0x40000000,
                ty < rows,
                width == gs[ty as int].len(),
                width < 0x40000000,
                tx <= width,
                rowc as nat == score_row(gs, x as int, y as int, ty as int, tx as int),
                rowc <= tx as u64,
            decreases width - tx,
        {
            if reaches_exec(g, x, y, tx as i64, ty as i64) {
                rowc += 1;
            }
            tx += 1;
        }
        proof {
            assert((ty as u64 + 1) * 0x40000000 == (ty as u64) * 0x40000000 + 0x40000000)
                by (nonlinear_arith);
        }
        total += rowc;
        ty += 1;
    }
    proof {
        assert(score_rows(gs, x as int, y as int, rows as int) == score(gs, x as int, y as int));
        assert((rows as u64) * 0x40000000 < 0x4000000000000000) by (nonlinear_arith)
            requires
                rows < 0x40000000,
        ;
    }
    total
}

/// Sum the scores or ratings of every trailhead; `None` when a cell is not
/// a digit or a rating total leaves 32 bits.
fn solve(input: &str, rating: bool) -> (r: Option<u32>)
    requires
        input.spec_bytes().len() < 0x40000000,
    ensures
        r == (if rating {
            spec_part_two(input.spec_bytes())
        } else {
            spec_part_one(input.spec_bytes())
        }),
{
    let ghost gs = spec_lines(input.spec_bytes());
    proof {
        crate::parsing::lemma_lines_count(input.spec_bytes(), 0);
    }
    let g = split_lines(input);
    proof {
        assert(grid_view(g@) =~= gs);
        assert forall|j: int| 0 <= j < g@.len() implies #[trigger] g@[j]@.len()
            < 0x40000000 by {
            crate::day04::lemma_line_short(input.spec_bytes(), j);
        }
    }
    let rows = g.len();
    // a non-digit cell fails the whole map
    let mut y: usize = 0;
    while y < rows
        invariant
            gs == spec_lines(input.spec_bytes()),
            gs == grid_view(g@),
            rows == g@.len(),
            y <= rows,
            forall|yy: int, xx: int|
                0 <= yy < y && 0 <= xx < gs[yy].len() ==> height(gs, yy, xx) >= 0,
        decreases rows - y,
    {
        let width = g[y].len();
        proof {
            assert(gs[y as int] == g@[y as int]@);
        }
        let mut x: usize = 0;
        while x < width
            invariant
                gs == spec_lines(input.spec_bytes()),
                gs == grid_view(g@),
                rows == g@.len(),
                y < rows,
                width == gs[y as int].len(),
                x <= width,
                forall|xx: int| 0 <= xx < x ==> height(gs, y as int, xx) >= 0,
            decreases width - x,
        {
            let c = g[y][x];
            if c < 48 || c > 57 {
                proof {
                    assert(height(gs, y as int, x as int) < 0);
                    assert(!all_digits(gs));
                }
                return None;
            }
            x += 1;
        }
        y += 1;
    }
    assert(all_digits(gs));
    // walk the trailheads
    let mut total: u64 = 0;
    let mut y: usize = 0;
    while y < rows
        invariant
            gs == spec_lines(input.spec_bytes()),
            gs == grid_view(g@),
            all_digits(gs),
            rows == g@.len(),
            rows < 0x40000000,
            forall|j: int| 0 <= j < g@.len() ==> #[trigger] g@[j]@.len() < 0x40000000,
            y <= rows,
            rating ==> total as nat == total_rows(gs, y as int, true) && total <= u32::MAX
                as u64,
            !rating ==> total as nat == total_rows(gs, y as int, false) % 0x100000000,
        decreases rows - y,
    {
        let width = g[y].len();
        proof {
            assert(gs[y as int] == g@[y as int]@);
        }
        let mut x: usize = 0;
        let ghost t0 = total_rows(gs, y as int, rating);
        while x < width
            invariant
                gs == spec_lines(input.spec_bytes()),
                gs == grid_view(g@),
                all_digits(gs),
                rows == g@.len(),
                rows < 0x40000000,
                forall|j: int| 0 <= j < g@.len() ==> #[trigger] g@[j]@.len() < 0x40000000,
                y < rows,
                width == gs[y as int].len(),
                width < 0x40000000,
                x <= width,
                t0 == total_rows(gs, y as int, rating),
                rating ==> total as nat == t0 + total_row(gs, y as int, x as int, true)
                    && total <= u32::MAX as u64,
                !rating ==> total as nat == (t0 + total_row(gs, y as int, x as int, false))
                    % 0x100000000,
            decreases width - x,
        {
            let c = g[y][x];
            if c == 48 {
                proof {
                    assert(height(gs, y as int, x as int) == 0);
                }
                if rating {
                    let t = trails_exec(&g, x as i64, y as i64);
                    total += t;
                    if total > u32::MAX as u64 {
                        proof {
                            lemma_total_row_mono(gs, y as int, x + 1, width as int, true);
                            lemma_total_rows_step(gs, y as int, true);
                            lemma_total_rows_mono(gs, y + 1, rows as int, true);
                        }
                        return None;
                    }
                } else {
                    let sc = score_exec(&g, x as i64, y as i64);
                    let ghost full = t0 + total_row(gs, y as int, x as int, false);
                    proof {
                        vstd::arithmetic::div_mod::lemma_add_mod_noop_right(
                            sc as int,
                            full as int,
                            0x100000000,
                        );
                    }
                    total = (total + sc) % 0x100000000u64;
                }
            } else {
                proof {
                    assert(height(gs, y as int, x as int) != 0);
                }
            }
            x += 1;
        }
        proof {
            lemma_total_rows_step(gs, y as int, rating);
        }
        y += 1;
    }
    if rating {
        Some(total as u32)
    } else {
        proof {
            vstd::arithmetic::div_mod::lemma_small_mod(total as nat, 0x100000000);
        }
        Some(#[verifier::truncate] (total as u32))
    }
}

/// Totals only grow as more cells and rows are taken in.
proof fn lemma_total_row_mono(g: Seq<Seq<u8>>, y: int, a: int, b: int, rating: bool)
    requires
        0 <= a <= b,
    ensures
        total_row(g, y, a, rating) <= total_row(g, y, b, rating),
    decreases b - a,
{
    if a < b {
        lemma_total_row_mono(g, y, a + 1, b, rating);
    }
}

proof fn lemma_total_rows_mono(g: Seq<Seq<u8>>, a: int, b: int, rating: bool)
    requires
        0 <= a <= b <= g.len(),
    ensures
        total_rows(g, a, rating) <= total_rows(g, b, rating),
    decreases b - a,
{
    if a < b {
        lemma_total_rows_mono(g, a + 1, b, rating);
    }
}

proof fn lemma_total_rows_step(g: Seq<Seq<u8>>, y: int, rating: bool)
    requires
        0 <= y < g.len(),
    ensures
        total_rows(g, y + 1, rating) == total_rows(g, y, rating) + total_row(
            g,
            y,
            g[y].len() as int,
            rating,
        ),
{
}

/// The summed scores of all trailheads.
pub fn part_one(input: &str) -> (r: Option<u32>)
    requires
        input.spec_bytes().len() < 0x40000000,
    ensures
        r == spec_part_one(input.spec_bytes()),
{
    solve(input, false)
}

/// The summed ratings of all trailheads.
pub fn part_two(input: &str) -> (r: Option<u32>)
    requires
        input.spec_bytes().len() < 0x40000000,
    ensures
        r == spec_part_two(input.spec_bytes()),
{
    solve(input, true)
}

} // verus!
