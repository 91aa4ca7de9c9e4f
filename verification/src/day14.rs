//! Robots on a wrapping grid: each has a position and a velocity, and
//! steps one velocity per second, wrapping around both edges.  After a
//! hundred seconds the safety factor is the product of the robot counts in
//! the four quadrants, robots on the middle lines counting nowhere.

use vstd::prelude::*;

use crate::parsing::{
    spec_lines, split_lines, is_digit, digits_val, digits_end, lemma_digits_end_bounds,
};
use vstd::string::StringSliceAdditionalSpecFns;

verus! {

/// Numbers read liberally off a line: every maximal digit run, negated
/// when a minus sign leads straight into it.
pub open spec fn sruns_from(s: Seq<u8>, k: int) -> Seq<int>
    decreases s.len() - k,
    via sruns_from_decreases
{
    if k < 0 || k >= s.len() {
        Seq::empty()
    } else if is_digit(s[k]) {
        seq![digits_val(s, k, digits_end(s, k)) as int] + sruns_from(s, digits_end(s, k))
    } else if s[k] == 45 && k + 1 < s.len() && is_digit(s[k + 1]) {
        seq![-(digits_val(s, k + 1, digits_end(s, k + 1)) as int)] + sruns_from(
            s,
            digits_end(s, k + 1),
        )
    } else {
        sruns_from(s, k + 1)
    }
}

#[via_fn]
proof fn sruns_from_decreases(s: Seq<u8>, k: int) {
    if 0 <= k < s.len() {
        if is_digit(s[k]) {
            lemma_digits_end_bounds(s, k);
        } else if k + 1 < s.len() && is_digit(s[k + 1]) {
            lemma_digits_end_bounds(s, k + 1);
        }
    }
}

pub open spec fn line_vals(l: Seq<u8>) -> Seq<int> {
    sruns_from(l, 0)
}

/// Positions are modest and velocities never outrun a grid dimension.
pub open spec fn robots_valid(ls: Seq<Seq<u8>>, w: int, h: int) -> bool {
    forall|i: int|
        0 <= i < ls.len() ==> {
            let vs = line_vals(#[trigger] ls[i]);
            &&& vs.len() == 4
            &&& 0 <= vs[0] <= 1000000000000000
            &&& 0 <= vs[1] <= 1000000000000000
            &&& -w <= vs[2] <= 1000000000000000
            &&& -h <= vs[3] <= 1000000000000000
        }
}

/// A wrapping step: the position moves one dimension right, one velocity
/// on, and wraps.
pub open spec fn wrap_step(p: int, v: int, dim: int) -> int {
    (p + dim + v) % dim
}

/// The position after `steps` wrapping steps.
pub open spec fn pos_after(p: int, v: int, dim: int, steps: nat) -> int
    decreases steps,
{
    if steps == 0 {
        p
    } else {
        pos_after(wrap_step(p, v, dim), v, dim, (steps - 1) as nat)
    }
}

/// Which of the four quadrants the cell falls in: none on a middle line of
/// an odd dimension, else twice the left-half flag plus the top-half flag.
pub open spec fn quadrant(x: int, y: int, w: int, h: int) -> Option<int> {
    if w % 2 == 1 && x == w / 2 {
        None
    } else if h % 2 == 1 && y == h / 2 {
        None
    } else {
        Some((if x < w / 2 {
            2int
        } else {
            0int
        }) + (if y < h / 2 {
            1int
        } else {
            0int
        }))
    }
}

/// How many of the first `n` robots end the hundred seconds in quadrant
/// `q`.
pub open spec fn count_quadrant(ls: Seq<Seq<u8>>, n: int, w: int, h: int, q: int) -> nat
    decreases n,
{
    if n <= 0 || n > ls.len() {
        0
    } else {
        let vs = line_vals(ls[n - 1]);
        let x = pos_after(vs[0], vs[2], w, 100);
        let y = pos_after(vs[1], vs[3], h, 100);
        count_quadrant(ls, n - 1, w, h, q) + (if quadrant(x, y, w, h) == Some(q) {
            1nat
        } else {
            0nat
        })
    }
}

/// The safety factor: the product of the four quadrant counts, or nothing
/// when the input is malformed or the product leaves 32 bits.
pub open spec fn spec_safety_factor(s: Seq<u8>, w: int, h: int) -> Option<u32> {
    let ls = spec_lines(s);
    let n = ls.len() as int;
    if robots_valid(ls, w, h) {
        let c0 = count_quadrant(ls, n, w, h, 0);
        let c1 = count_quadrant(ls, n, w, h, 1);
        let c2 = count_quadrant(ls, n, w, h, 2);
        let c3 = count_quadrant(ls, n, w, h, 3);
        if c0 * c1 <= u32::MAX as nat && c0 * c1 * c2 <= u32::MAX as nat && c0 * c1 * c2 * c3
            <= u32::MAX as nat {
            Some((c0 * c1 * c2 * c3) as u32)
        } else {
            None
        }
    } else {
        None
    }
}

pub open spec fn spec_part_one(s: Seq<u8>) -> Option<u32> {
    spec_safety_factor(s, 101, 103)
}

/// Read a line's four signed values; `None` when the line is malformed.
fn read_robot(line: &Vec<u8>, w: u64, h: u64) -> (r: Option<(u64, u64, i64, i64)>)
    requires
        1 <= w <= 1000000000000000u64,
        1 <= h <= 1000000000000000u64,
    ensures
        match r {
            Some(t) => {
                &&& line_vals(line@) =~= seq![
                    t.0 as int,
                    t.1 as int,
                    t.2 as int,
                    t.3 as int,
                ]
                &&& t.0 <= 1000000000000000u64
                &&& t.1 <= 1000000000000000u64
                &&& -(w as int) <= t.2 as int <= 1000000000000000
                &&& -(h as int) <= t.3 as int <= 1000000000000000
            },
            None => !({
                let vs = line_vals(line@);
                &&& vs.len() == 4
                &&& 0 <= vs[0] <= 1000000000000000
                &&& 0 <= vs[1] <= 1000000000000000
                &&& -(w as int) <= vs[2] <= 1000000000000000
                &&& -(h as int) <= vs[3] <= 1000000000000000
            }),
        },
{
    let s = line.as_slice();
    let ghost sq = line@;
    let n = s.len();
    let mut out: Vec<i64> = Vec::new();
    let mut k: usize = 0;
    while k < n
        invariant
            s@ == sq,
            sq == line@,
            n == sq.len(),
            1 <= w <= 1000000000000000u64,
            1 <= h <= 1000000000000000u64,
            k <= n,
            line_vals(sq) == out@.map_values(|x: i64| x as int) + sruns_from(sq, k as int),
            forall|i: int|
                0 <= i < out@.len() ==> -1000000000000000 <= (#[trigger] out@[i]) as int
                    <= 1000000000000000,
        decreases n - k,
    {
        let c = s[k];
        let neg = c == 45 && k + 1 < n && 48 <= s[k + 1] && s[k + 1] <= 57;
        if !(48 <= c && c <= 57) && !neg {
            k += 1;
            continue ;
        }
        let from = if neg {
            k + 1
        } else {
            k
        };
        proof {
            lemma_digits_end_bounds(sq, from as int);
        }
        let ghost e_spec = digits_end(sq, from as int);
        let mut e: usize = from;
        let mut acc: u64 = 0;
        let mut ok = true;
        while e < n && 48 <= s[e] && s[e] <= 57
            invariant
                s@ == sq,
                n == sq.len(),
                from <= e <= n,
                digits_end(sq, from as int) == digits_end(sq, e as int),
                ok ==> acc as nat == digits_val(sq, from as int, e as int) && acc as nat
                    <= 1000000000000000,
                !ok ==> digits_val(sq, from as int, e as int) > 1000000000000000,
                forall|m: int| from <= m < e ==> is_digit(sq[m]),
            decreases n - e,
        {
            let d = (s[e] - 48) as u64;
            if ok {
                if acc <= (1000000000000000u64 - d) / 10 && acc * 10 + d <= 1000000000000000u64 {
                    acc = acc * 10 + d;
                } else {
                    proof {
                        assert(acc > (1000000000000000u64 - d) / 10 ==> acc * 10 + d
                            > 1000000000000000u64) by (nonlinear_arith)
                            requires
                                d <= 9,
                        ;
                    }
                    ok = false;
                }
            } else {
                proof {
                    assert(digits_val(sq, from as int, e + 1) >= digits_val(
                        sq,
                        from as int,
                        e as int,
                    ) * 10) by (nonlinear_arith)
                        requires
                            digits_val(sq, from as int, e + 1) == digits_val(
                                sq,
                                from as int,
                                e as int,
                            ) * 10 + (sq[e as int] - 48) as nat,
                    ;
                }
            }
            e += 1;
        }
        assert(e == e_spec);
        let ghost runval: int = if neg {
            -(digits_val(sq, from as int, e as int) as int)
        } else {
            digits_val(sq, from as int, e as int) as int
        };
        proof {
            if neg {
                assert(sruns_from(sq, k as int) == seq![runval] + sruns_from(sq, e as int));
            } else {
                assert(sruns_from(sq, k as int) == seq![runval] + sruns_from(sq, e as int));
            }
        }
        if !ok {
            proof {
                let done = out@.map_values(|x: i64| x as int);
                let vs = line_vals(sq);
                let dl = done.len() as int;
                assert(vs[dl] == runval);
                assert(runval > 1000000000000000 || runval < -1000000000000000);
                if vs.len() == 4 {
                    assert(0 <= dl < 4);
                    if dl == 0 {
                        assert(!(0 <= vs[0] <= 1000000000000000));
                    } else if dl == 1 {
                        assert(!(0 <= vs[1] <= 1000000000000000));
                    } else if dl == 2 {
                        assert(!(-(w as int) <= vs[2] <= 1000000000000000));
                    } else {
                        assert(!(-(h as int) <= vs[3] <= 1000000000000000));
                    }
                }
            }
            return None;
        }
        let signed: i64 = if neg {
            -(acc as i64)
        } else {
            acc as i64
        };
        out.push(signed);
        proof {
            let done = out@.map_values(|x: i64| x as int);
            assert(done =~= out@.drop_last().map_values(|x: i64| x as int).push(
                signed as int,
            ));
            assert(line_vals(sq) =~= done + sruns_from(sq, e as int));
        }
        k = e;
    }
    proof {
        assert(out@.map_values(|x: i64| x as int) + sruns_from(sq, n as int) =~= out@.map_values(
            |x: i64| x as int,
        ));
    }
    if out.len() != 4 {
        return None;
    }
    let px = out[0];
    let py = out[1];
    let vx = out[2];
    let vy = out[3];
    proof {
        assert(line_vals(sq)[0] == px as int);
        assert(line_vals(sq)[1] == py as int);
        assert(line_vals(sq)[2] == vx as int);
        assert(line_vals(sq)[3] == vy as int);
    }
    if px < 0 || py < 0 {
        return None;
    }
    if vx < -(w as i64) || vy < -(h as i64) {
        return None;
    }
    Some((px as u64, py as u64, vx, vy))
}

/// Step one coordinate a hundred wrapping steps.
fn run_steps(p: u64, v: i64, dim: u64) -> (r: u64)
    requires
        1 <= dim <= 1000000000000000u64,
        p <= 1000000000000000u64,
        -(dim as int) <= v as int <= 1000000000000000,
    ensures
        r as int == pos_after(p as int, v as int, dim as int, 100),
        r < dim,
{
    let mut q = p;
    let mut steps: u64 = 0;
    while steps < 100
        invariant
            1 <= dim <= 1000000000000000u64,
            -(dim as int) <= v as int <= 1000000000000000,
            steps <= 100,
            steps > 0 ==> q < dim,
            q <= 1000000000000000u64,
            pos_after(p as int, v as int, dim as int, 100) == pos_after(
                q as int,
                v as int,
                dim as int,
                (100 - steps) as nat,
            ),
        decreases 100 - steps,
    {
        let base = q + dim;
        let moved = if v >= 0 {
            base + (v as u64)
        } else {
            base - ((-v) as u64)
        };
        proof {
            assert(moved as int == q as int + dim as int + v as int);
        }
        let next = moved % dim;
        proof {
            assert(next as int == wrap_step(q as int, v as int, dim as int));
        }
        q = next;
        steps += 1;
    }
    q
}

/// The safety factor of the robots on a `w` by `h` grid after a hundred
/// seconds.
pub fn safety_factor(input: &str, w: u64, h: u64) -> (r: Option<u32>)
    requires
        input.spec_bytes().len() < usize::MAX,
        1 <= w <= 1000000000000000u64,
        1 <= h <= 1000000000000000u64,
    ensures
        r == spec_safety_factor(input.spec_bytes(), w as int, h as int),
{
    let ghost ls = spec_lines(input.spec_bytes());
    let lines = split_lines(input);
    let n = lines.len();
    let mut counts0: u64 = 0;
    let mut counts1: u64 = 0;
    let mut counts2: u64 = 0;
    let mut counts3: u64 = 0;
    let mut i: usize = 0;
    while i < n
        invariant
            ls == spec_lines(input.spec_bytes()),
            n == lines@.len(),
            n == ls.len(),
            forall|j: int| 0 <= j < n ==> #[trigger] lines@[j]@ == ls[j],
            1 <= w <= 1000000000000000u64,
            1 <= h <= 1000000000000000u64,
            i <= n,
            counts0 as nat == count_quadrant(ls, i as int, w as int, h as int, 0),
            counts1 as nat == count_quadrant(ls, i as int, w as int, h as int, 1),
            counts2 as nat == count_quadrant(ls, i as int, w as int, h as int, 2),
            counts3 as nat == count_quadrant(ls, i as int, w as int, h as int, 3),
            counts0 <= i && counts1 <= i && counts2 <= i && counts3 <= i,
            forall|j: int|
                0 <= j < i ==> {
                    let vs = line_vals(#[trigger] ls[j]);
                    &&& vs.len() == 4
                    &&& 0 <= vs[0] <= 1000000000000000
                    &&& 0 <= vs[1] <= 1000000000000000
                    &&& -(w as int) <= vs[2] <= 1000000000000000
                    &&& -(h as int) <= vs[3] <= 1000000000000000
                },
        decreases n - i,
    {
        let robot = match read_robot(&lines[i], w, h) {
            None => {
                return None;
            },
            Some(t) => t,
        };
        let (px, py, vx, vy) = robot;
        let x = run_steps(px, vx, w);
        let y = run_steps(py, vy, h);
        let ghost q_spec = quadrant(x as int, y as int, w as int, h as int);
        let on_mid_x = w % 2 == 1 && x == w / 2;
        let on_mid_y = h % 2 == 1 && y == h / 2;
        if !on_mid_x && !on_mid_y {
            let q = (if x < w / 2 {
                2u64
            } else {
                0u64
            }) + (if y < h / 2 {
                1u64
            } else {
                0u64
            });
            proof {
                assert(q_spec == Some(q as int));
            }
            if q == 0 {
                counts0 += 1;
            } else if q == 1 {
                counts1 += 1;
            } else if q == 2 {
                counts2 += 1;
            } else {
                counts3 += 1;
            }
        }
        i += 1;
    }
    // the product of the four quadrant counts, taken pair by pair as the
    // original's running product overflows
    proof {
        assert((counts0 as nat) * (counts1 as nat) < 0x100000000000000000000000000000000)
            by (nonlinear_arith)
            requires
                counts0 as nat <= 0xFFFFFFFFFFFFFFFF,
                counts1 as nat <= 0xFFFFFFFFFFFFFFFF,
        ;
    }
    let p01 = (counts0 as u128) * (counts1 as u128);
    if p01 > u32::MAX as u128 {
        return None;
    }
    proof {
        assert((p01 as nat) * (counts2 as nat) < 0x100000000000000000000000000000000)
            by (nonlinear_arith)
            requires
                p01 as nat <= 0xFFFFFFFF,
                counts2 as nat <= 0xFFFFFFFFFFFFFFFF,
        ;
    }
    let p012 = p01 * (counts2 as u128);
    proof {
        assert((p01 as nat) * (counts2 as nat) == (counts0 as nat) * (counts1 as nat) * (
        counts2 as nat)) by (nonlinear_arith)
            requires
                p01 as nat == (counts0 as nat) * (counts1 as nat),
        ;
    }
    if p012 > u32::MAX as u128 {
        return None;
    }
    proof {
        assert((p012 as nat) * (counts3 as nat) < 0x100000000000000000000000000000000)
            by (nonlinear_arith)
            requires
                p012 as nat <= 0xFFFFFFFF,
                counts3 as nat <= 0xFFFFFFFFFFFFFFFF,
        ;
    }
    let prod = p012 * (counts3 as u128);
    proof {
        assert((p012 as nat) * (counts3 as nat) <= (u32::MAX as nat) * (counts3 as nat))
            by (nonlinear_arith)
            requires
                p012 as nat <= u32::MAX as nat,
                counts3 as nat <= n as nat,
        ;
        assert((p012 as nat) * (counts3 as nat) == (counts0 as nat) * (counts1 as nat) * (
        counts2 as nat) * (counts3 as nat)) by (nonlinear_arith)
            requires
                p012 as nat == (counts0 as nat) * (counts1 as nat) * (counts2 as nat),
        ;
    }
    if prod > u32::MAX as u128 {
        return None;
    }
    Some(prod as u32)
}

/// The safety factor on the hundred-and-one by hundred-and-three grid.
pub fn part_one(input: &str) -> (r: Option<u32>)
    requires
        input.spec_bytes().len() < usize::MAX,
    ensures
        r == spec_part_one(input.spec_bytes()),
{
    safety_factor(input, 101, 103)
}

} // verus!
