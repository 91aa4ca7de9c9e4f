//! Claw machines: each blank-separated block of three lines gives the two
//! button offsets and the prize position.  The first strategy searches
//! combined press counts downward for a winning split; the second solves
//! the two linear equations exactly after shifting the prize far out, at
//! three tokens per press of the first button and one of the second.

use vstd::prelude::*;

use crate::parsing::{
    spec_lines, split_lines, is_digit, digits_val, digits_end, lemma_digits_end_bounds,
    runs_from, line_runs,
};
use vstd::string::StringSliceAdditionalSpecFns;

verus! {

/// The lines that are not blank.
pub open spec fn nonblank(ls: Seq<Seq<u8>>) -> Seq<Seq<u8>>
    decreases ls.len(),
{
    if ls.len() == 0 {
        Seq::empty()
    } else if ls[0].len() == 0 {
        nonblank(ls.drop_first())
    } else {
        seq![ls[0]] + nonblank(ls.drop_first())
    }
}

/// The machine line values stay in a range that keeps the exact solver's
/// intermediate products within 128 bits.
pub open spec fn value_cap() -> nat {
    1000000000000000
}

/// Every machine is three non-blank lines of exactly two bounded numbers,
/// with no zero button offsets (the search divides by them).
pub open spec fn valid_input(ls: Seq<Seq<u8>>) -> bool {
    let nb = nonblank(ls);
    &&& nb.len() % 3 == 0
    &&& forall|i: int|
        0 <= i < nb.len() ==> {
            let rs = line_runs(#[trigger] nb[i]);
            &&& rs.len() == 2
            &&& rs[0] <= value_cap()
            &&& rs[1] <= value_cap()
        }
    &&& forall|i: int|
        0 <= i < nb.len() && i % 3 < 2 ==> {
            let rs = line_runs(#[trigger] nb[i]);
            rs[0] >= 1 && rs[1] >= 1
        }
}

/// A machine's six values: both button offsets and the prize.
pub open spec fn machine_val(nb: Seq<Seq<u8>>, m: int, k: int) -> int {
    (line_runs(nb[3 * m + k / 2])[k % 2]) as int
}

/// A remainder `(x, y)` cleared by one button of offsets `(v, w)` alone:
/// the presses it takes, when both axes agree.
pub open spec fn press_hit(x: int, y: int, v: int, w: int) -> Option<int> {
    if x % v == 0 && y % w == 0 && x / v == y / w {
        Some(x / v)
    } else {
        None
    }
}

/// The combined-press search: from `i` presses of both buttons downward,
/// the first split of the remainder that lands on the prize with one
/// button alone; three tokens per first-button press, one per second.
pub open spec fn try_press(
    ax: int,
    ay: int,
    bx: int,
    by: int,
    px: int,
    py: int,
    i: int,
) -> Option<int>
    decreases i + 1,
{
    if i < 0 {
        None
    } else {
        let x = px - (ax + bx) * i;
        let y = py - (ay + by) * i;
        match press_hit(x, y, ax, ay) {
            Some(dx) => Some(4 * i + 3 * dx),
            None => match press_hit(x, y, bx, by) {
                Some(dx) => Some(4 * i + dx),
                None => try_press(ax, ay, bx, by, px, py, i - 1),
            },
        }
    }
}

pub open spec fn min_int(a: int, b: int) -> int {
    if a <= b {
        a
    } else {
        b
    }
}

/// The cheapest win of the searching strategy, if any.
pub open spec fn cost_search(nb: Seq<Seq<u8>>, m: int) -> Option<int> {
    let ax = machine_val(nb, m, 0);
    let ay = machine_val(nb, m, 1);
    let bx = machine_val(nb, m, 2);
    let by = machine_val(nb, m, 3);
    let px = machine_val(nb, m, 4);
    let py = machine_val(nb, m, 5);
    try_press(ax, ay, bx, by, px, py, min_int(px / (ax + bx), py / (ay + by)))
}

pub open spec fn abs_n(x: int) -> nat {
    if x >= 0 {
        x as nat
    } else {
        (-x) as nat
    }
}

/// The signed quotient by magnitudes, exact when the divisor divides.
pub open spec fn exact_quot(x: int, d: int) -> int {
    if (x < 0) == (d < 0) {
        (abs_n(x) / abs_n(d)) as int
    } else {
        -((abs_n(x) / abs_n(d)) as int)
    }
}

/// The exact solution with the prize shifted out, when the buttons are
/// independent and the solution is integral; the token count is taken as
/// the original does, wrapped into 64 bits.
pub open spec fn cost_exact(nb: Seq<Seq<u8>>, m: int) -> Option<int> {
    let a = machine_val(nb, m, 0);
    let d = machine_val(nb, m, 1);
    let b = machine_val(nb, m, 2);
    let e = machine_val(nb, m, 3);
    let c = machine_val(nb, m, 4) + 10000000000000;
    let f = machine_val(nb, m, 5) + 10000000000000;
    let det = a * e - b * d;
    let xa = c * e - b * f;
    let ya = a * f - c * d;
    if abs_n(xa) % abs_n(det) != 0 || abs_n(ya) % abs_n(det) != 0 {
        None
    } else {
        Some(exact_quot(xa, det) * 3 + exact_quot(ya, det))
    }
}

/// The buttons of every machine are independent: the exact solver divides
/// by this determinant.
pub open spec fn nonsingular(nb: Seq<Seq<u8>>) -> bool {
    forall|m: int|
        0 <= m < nb.len() / 3 ==> #[trigger] (machine_val(nb, m, 0) * machine_val(nb, m, 3)
            - machine_val(nb, m, 2) * machine_val(nb, m, 1)) != 0
}

/// The summed token cost over the first `m` machines; each cost is wrapped
/// into 64 bits as the original's cast does.
pub open spec fn sum_costs(nb: Seq<Seq<u8>>, m: int, exact: bool) -> nat
    decreases m,
{
    if m <= 0 {
        0
    } else {
        sum_costs(nb, m - 1, exact) + (match (if exact {
            cost_exact(nb, m - 1)
        } else {
            cost_search(nb, m - 1)
        }) {
            Some(c) => (c as u64) as nat,
            None => 0,
        })
    }
}

/// The fewest tokens to win every winnable prize under the searching
/// strategy, or nothing when the input is malformed or a sum leaves range.
pub open spec fn spec_part_one(s: Seq<u8>) -> Option<u32> {
    let nb = nonblank(spec_lines(s));
    if valid_input(spec_lines(s)) && sum_costs(nb, (nb.len() / 3) as int, false) <= u32::MAX as nat {
        Some(sum_costs(nb, (nb.len() / 3) as int, false) as u32)
    } else {
        None
    }
}

/// The fewest tokens with the prizes shifted out, solved exactly, or
/// nothing when the input is malformed, a machine is singular, or the sum
/// leaves range.
pub open spec fn spec_part_two(s: Seq<u8>) -> Option<u64> {
    let nb = nonblank(spec_lines(s));
    if valid_input(spec_lines(s)) && nonsingular(nb) && sum_costs(nb, (nb.len() / 3) as int, true)
        <= u64::MAX as nat {
        Some(sum_costs(nb, (nb.len() / 3) as int, true) as u64)
    } else {
        None
    }
}

/// Read a line's digit runs; `None` when one exceeds the value cap.
fn read_runs(line: &Vec<u8>) -> (r: Option<Vec<u64>>)
    ensures
        match r {
            Some(v) => {
                &&& v@.map_values(|x: u64| x as nat) == line_runs(line@)
                &&& forall|i: int| 0 <= i < v@.len() ==> #[trigger] v@[i] as nat <= value_cap()
            },
            None => exists|i: int|
                0 <= i < line_runs(line@).len() && #[trigger] line_runs(line@)[i] > value_cap(),
        },
{
    let s = line.as_slice();
    let ghost sq = line@;
    let n = s.len();
    let mut out: Vec<u64> = Vec::new();
    let mut k: usize = 0;
    while k < n
        invariant
            s@ == sq,
            sq == line@,
            n == sq.len(),
            k <= n,
            line_runs(sq) == out@.map_values(|x: u64| x as nat) + runs_from(sq, k as int),
            forall|i: int| 0 <= i < out@.len() ==> #[trigger] out@[i] as nat <= value_cap(),
        decreases n - k,
    {
        let c = s[k];
        if c < 48 || c > 57 {
            k += 1;
            continue ;
        }
        proof {
            lemma_digits_end_bounds(sq, k as int);
        }
        let ghost e_spec = digits_end(sq, k as int);
        let mut e: usize = k;
        let mut acc: u64 = 0;
        let mut ok = true;
        while e < n && 48 <= s[e] && s[e] <= 57
            invariant
                s@ == sq,
                n == sq.len(),
                k <= e <= n,
                digits_end(sq, k as int) == digits_end(sq, e as int),
                ok ==> acc as nat == digits_val(sq, k as int, e as int) && acc as nat
                    <= value_cap(),
                !ok ==> digits_val(sq, k as int, e as int) > value_cap(),
                forall|m: int| k <= m < e ==> is_digit(sq[m]),
            decreases n - e,
        {
            let d = (s[e] - 48) as u64;
            if ok {
                if acc <= (1000000000000000u64 - d) / 10 && acc * 10 + d <= 1000000000000000u64 {
                    acc = acc * 10 + d;
                } else {
                    proof {
                        assert(acc * 10 + d > 1000000000000000u64 ==> digits_val(
                            sq,
                            k as int,
                            e + 1,
                        ) > value_cap());
                        assert(acc > (1000000000000000u64 - d) / 10 ==> acc * 10 + d
                            > 1000000000000000u64) by (nonlinear_arith)
                            requires
                                d <= 9,
                        ;
                    }
                    ok = false;
                }
            } else {
                proof {
                    assert(digits_val(sq, k as int, e + 1) >= digits_val(sq, k as int, e as int)
                        * 10) by (nonlinear_arith)
                        requires
                            digits_val(sq, k as int, e + 1) == digits_val(
                                sq,
                                k as int,
                                e as int,
                            ) * 10 + (sq[e as int] - 48) as nat,
                    ;
                }
            }
            e += 1;
        }
        assert(e == e_spec);
        if !ok {
            proof {
                let runs = line_runs(sq);
                let done = out@.map_values(|x: u64| x as nat);
                assert(runs_from(sq, k as int) == seq![digits_val(sq, k as int, e as int)]
                    + runs_from(sq, e as int));
                assert(runs[done.len() as int] == digits_val(sq, k as int, e as int));
            }
            return None;
        }
        out.push(acc);
        proof {
            let done = out@.map_values(|x: u64| x as nat);
            assert(runs_from(sq, k as int) == seq![acc as nat] + runs_from(sq, e as int));
            assert(done =~= out@.drop_last().map_values(|x: u64| x as nat).push(acc as nat));
            assert(line_runs(sq) =~= done + runs_from(sq, e as int));
        }
        k = e;
    }
    proof {
        assert(out@.map_values(|x: u64| x as nat) + runs_from(sq, n as int) =~= out@.map_values(
            |x: u64| x as nat,
        ));
    }
    Some(out)
}

/// Read every machine's six values in order; `None` when the input is
/// malformed.
fn read_machines(input: &str) -> (r: Option<Vec<u64>>)
    requires
        input.spec_bytes().len() < usize::MAX,
    ensures
        match r {
            Some(v) => {
                &&& valid_input(spec_lines(input.spec_bytes()))
                &&& v@.len() == 2 * nonblank(spec_lines(input.spec_bytes())).len()
                &&& forall|i: int|
                    0 <= i < v@.len() ==> #[trigger] v@[i] as nat == line_runs(
                        nonblank(spec_lines(input.spec_bytes()))[i / 2],
                    )[i % 2]
                &&& forall|i: int| 0 <= i < v@.len() ==> #[trigger] v@[i] <= 1000000000000000u64
            },
            None => !valid_input(spec_lines(input.spec_bytes())),
        },
{
    let ghost ls = spec_lines(input.spec_bytes());
    let ghost nbs = nonblank(ls);
    let lines = split_lines(input);
    let n = lines.len();
    let mut vals: Vec<u64> = Vec::new();
    let mut i: usize = 0;
    while i < n
        invariant
            ls == spec_lines(input.spec_bytes()),
            nbs == nonblank(ls),
            n == lines@.len(),
            n == ls.len(),
            forall|j: int| 0 <= j < n ==> #[trigger] lines@[j]@ == ls[j],
            i <= n,
            vals@.len() == 2 * nonblank(ls.take(i as int)).len(),
            forall|j: int|
                0 <= j < vals@.len() ==> #[trigger] vals@[j] as nat == line_runs(
                    nonblank(ls.take(i as int))[j / 2],
                )[j % 2],
            forall|j: int| 0 <= j < vals@.len() ==> #[trigger] vals@[j] <= 1000000000000000u64,
            forall|j: int|
                0 <= j < nonblank(ls.take(i as int)).len() ==> {
                    let rs = line_runs(#[trigger] nonblank(ls.take(i as int))[j]);
                    rs.len() == 2 && rs[0] <= value_cap() && rs[1] <= value_cap()
                },
        decreases n - i,
    {
        proof {
            lemma_nonblank_take(ls, i as int);
        }
        let line = &lines[i];
        if line.len() == 0 {
            i += 1;
            continue ;
        }
        let runs = match read_runs(line) {
            None => {
                proof {
                    lemma_nonblank_member(ls, i as int);
                }
                return None;
            },
            Some(v) => v,
        };
        if runs.len() != 2 {
            proof {
                lemma_nonblank_member(ls, i as int);
            }
            return None;
        }
        let a = runs[0];
        let b = runs[1];
        vals.push(a);
        vals.push(b);
        proof {
            let t = nonblank(ls.take(i + 1));
            assert(t =~= nonblank(ls.take(i as int)).push(ls[i as int]));
            assert(forall|j: int|
                0 <= j < t.len() - 1 ==> #[trigger] t[j] == nonblank(ls.take(i as int))[j]);
            assert(t[t.len() - 1] == ls[i as int]);
            assert(a as nat == line_runs(ls[i as int])[0]);
            assert(b as nat == line_runs(ls[i as int])[1]);
        }
        i += 1;
    }
    proof {
        assert(ls.take(n as int) =~= ls);
    }
    if vals.len() % 6 != 0 {
        proof {
            assert(nbs.len() % 3 != 0);
        }
        return None;
    }
    // the button lines must have no zero offsets
    let mut j: usize = 0;
    let m = vals.len();
    while j < m
        invariant
            nbs == nonblank(spec_lines(input.spec_bytes())),
            m == vals@.len(),
            m == 2 * nbs.len(),
            m % 6 == 0,
            forall|q: int|
                0 <= q < m ==> #[trigger] vals@[q] as nat == line_runs(nbs[q / 2])[q % 2],
            forall|q: int| 0 <= q < m ==> #[trigger] vals@[q] <= 1000000000000000u64,
            forall|q: int|
                0 <= q < nbs.len() ==> {
                    let rs = line_runs(#[trigger] nbs[q]);
                    rs.len() == 2 && rs[0] <= value_cap() && rs[1] <= value_cap()
                },
            j <= m,
            j % 6 == 0,
            forall|q: int|
                0 <= q < nbs.len() && 2 * q < j && q % 3 < 2 ==> {
                    let rs = line_runs(#[trigger] nbs[q]);
                    rs[0] >= 1 && rs[1] >= 1
                },
        decreases m - j,
    {
        if vals[j] == 0 || vals[j + 1] == 0 || vals[j + 2] == 0 || vals[j + 3] == 0 {
            proof {
                let q = (j as int) / 2;
                if vals@[j as int] == 0 || vals@[j + 1] == 0 {
                    assert(line_runs(nbs[q])[0] == 0 || line_runs(nbs[q])[1] == 0);
                } else {
                    assert(line_runs(nbs[q + 1])[0] == 0 || line_runs(nbs[q + 1])[1] == 0);
                }
            }
            return None;
        }
        j += 6;
    }
    proof {
        assert forall|q: int| 0 <= q < nbs.len() && q % 3 < 2 implies {
            let rs = line_runs(#[trigger] nbs[q]);
            rs[0] >= 1 && rs[1] >= 1
        } by {
            assert(2 * q < m);
        }
        assert(valid_input(spec_lines(input.spec_bytes())));
    }
    Some(vals)
}

/// Appending a line keeps or extends the non-blank lines.
proof fn lemma_nonblank_take(ls: Seq<Seq<u8>>, i: int)
    requires
        0 <= i < ls.len(),
    ensures
        ls[i].len() == 0 ==> nonblank(ls.take(i + 1)) == nonblank(ls.take(i)),
        ls[i].len() != 0 ==> nonblank(ls.take(i + 1)) == nonblank(ls.take(i)).push(ls[i]),
    decreases i,
{
    if i == 0 {
        assert(ls.take(1).drop_first() =~= Seq::<Seq<u8>>::empty());
        assert(ls.take(1)[0] == ls[0]);
        assert(nonblank(Seq::<Seq<u8>>::empty()) =~= Seq::<Seq<u8>>::empty());
        assert(nonblank(ls.take(0)) =~= Seq::<Seq<u8>>::empty());
        if ls[0].len() != 0 {
            assert(nonblank(ls.take(1)) =~= nonblank(ls.take(0)).push(ls[0]));
        }
    } else {
        lemma_nonblank_take(ls.drop_first(), i - 1);
        assert(ls.take(i + 1).drop_first() =~= ls.drop_first().take(i));
        assert(ls.take(i).drop_first() =~= ls.drop_first().take(i - 1));
        assert(ls.take(i + 1)[0] == ls[0]);
        assert(ls.take(i)[0] == ls[0]);
        assert(ls.drop_first()[i - 1] == ls[i]);
        if ls[i].len() != 0 {
            if ls[0].len() == 0 {
                assert(nonblank(ls.take(i + 1)) =~= nonblank(ls.take(i)).push(ls[i]));
            } else {
                assert(nonblank(ls.take(i + 1)) =~= nonblank(ls.take(i)).push(ls[i]));
            }
        }
    }
}

/// A malformed non-blank line defeats the whole input.
proof fn lemma_nonblank_member(ls: Seq<Seq<u8>>, i: int)
    requires
        0 <= i < ls.len(),
        ls[i].len() != 0,
    ensures
        exists|j: int| 0 <= j < nonblank(ls).len() && #[trigger] nonblank(ls)[j] == ls[i],
    decreases ls.len(),
{
    if i == 0 {
        assert(nonblank(ls)[0] == ls[0]);
    } else {
        lemma_nonblank_member(ls.drop_first(), i - 1);
        let j = choose|j: int|
            0 <= j < nonblank(ls.drop_first()).len() && #[trigger] nonblank(ls.drop_first())[j]
                == ls.drop_first()[i - 1];
        if ls[0].len() == 0 {
            assert(nonblank(ls)[j] == nonblank(ls.drop_first())[j]);
        } else {
            assert(nonblank(ls)[j + 1] == nonblank(ls.drop_first())[j]);
        }
    }
}

/// The signed difference of two bounded products, in 128 bits.
fn prod_diff(p: u64, q: u64, r: u64, t: u64) -> (res: i128)
    requires
        p <= 0x8000000000000,
        q <= 0x8000000000000,
        r <= 0x8000000000000,
        t <= 0x8000000000000,
    ensures
        res as int == p as int * q as int - r as int * t as int,
        -0x40000000000000000000000000 <= res as int <= 0x40000000000000000000000000,
{
    proof {
        assert(p as int * q as int <= 0x8000000000000 * 0x8000000000000) by (nonlinear_arith)
            requires
                0 <= p as int <= 0x8000000000000,
                0 <= q as int <= 0x8000000000000,
        ;
        assert(r as int * t as int <= 0x8000000000000 * 0x8000000000000) by (nonlinear_arith)
            requires
                0 <= r as int <= 0x8000000000000,
                0 <= t as int <= 0x8000000000000,
        ;
    }
    (p as i128) * (q as i128) - (r as i128) * (t as i128)
}

/// The signed quotient by magnitudes, and whether the division is exact.
fn quot(x: i128, d: i128) -> (r: (i128, bool))
    requires
        d != 0,
        -0x80000000000000000000000000 <= x <= 0x80000000000000000000000000,
        -0x80000000000000000000000000 <= d <= 0x80000000000000000000000000,
    ensures
        r.0 as int == exact_quot(x as int, d as int),
        r.1 == (abs_n(x as int) % abs_n(d as int) == 0),
        abs_n(r.0 as int) <= abs_n(x as int),
{
    let xm: u128 = if x >= 0 {
        x as u128
    } else {
        (-x) as u128
    };
    let dm: u128 = if d >= 0 {
        d as u128
    } else {
        (-d) as u128
    };
    let qm = xm / dm;
    proof {
        assert(xm as nat == abs_n(x as int));
        assert(dm as nat == abs_n(d as int));
        vstd::arithmetic::div_mod::lemma_fundamental_div_mod(xm as int, dm as int);
        assert(qm as nat * dm as nat <= xm as nat) by (nonlinear_arith)
            requires
                xm as nat == dm as nat * (qm as nat) + xm as nat % dm as nat,
        ;
    }
    proof {
        assert(xm as nat / dm as nat <= xm as nat) by (nonlinear_arith)
            requires
                dm as nat >= 1,
        ;
    }
    let exact = xm % dm == 0;
    let r: i128 = if (x < 0) == (d < 0) {
        qm as i128
    } else {
        -(qm as i128)
    };
    (r, exact)
}

/// The exact strategy on machine `m` of the flattened values: `None` when
/// the machine is singular, otherwise its token cost, if the solution is
/// integral.
fn exact_cost(vals: &Vec<u64>, m: usize) -> (r: Option<Option<u64>>)
    requires
        6 * m + 6 <= vals@.len(),
        forall|i: int| 0 <= i < vals@.len() ==> #[trigger] vals@[i] <= 1000000000000000u64,
    ensures
        ({
            let a = vals@[6 * m] as int;
            let d = vals@[6 * m + 1] as int;
            let b = vals@[6 * m + 2] as int;
            let e = vals@[6 * m + 3] as int;
            let c = vals@[6 * m + 4] as int + 10000000000000;
            let f = vals@[6 * m + 5] as int + 10000000000000;
            let det = a * e - b * d;
            let xa = c * e - b * f;
            let ya = a * f - c * d;
            match r {
                None => det == 0,
                Some(copt) => det != 0 && (match copt {
                    None => abs_n(xa) % abs_n(det) != 0 || abs_n(ya) % abs_n(det) != 0,
                    Some(v) => {
                        &&& abs_n(xa) % abs_n(det) == 0
                        &&& abs_n(ya) % abs_n(det) == 0
                        &&& v as int == ((exact_quot(xa, det) * 3 + exact_quot(ya, det)) as u64)
                            as int
                    },
                }),
            }
        }),
{
    let n = vals.len();
    proof {
        assert(6 * (m as int) + 6 <= n as int);
        assert(vals@[6 * m + 4] <= 1000000000000000u64);
        assert(vals@[6 * m + 5] <= 1000000000000000u64);
    }
    let a = vals[6 * m];
    let d = vals[6 * m + 1];
    let b = vals[6 * m + 2];
    let e = vals[6 * m + 3];
    let c = vals[6 * m + 4] + 10000000000000;
    let f = vals[6 * m + 5] + 10000000000000;
    let det = prod_diff(a, e, b, d);
    let xa = prod_diff(c, e, b, f);
    let ya = prod_diff(a, f, c, d);
    if det == 0 {
        return None;
    }
    let (q1, ok1) = quot(xa, det);
    let (q2, ok2) = quot(ya, det);
    if !ok1 || !ok2 {
        return Some(None);
    }
    let cost = q1 * 3 + q2;
    Some(Some(#[verifier::truncate] (cost as u64)))
}

/// The searching strategy on machine `m`: try combined press counts from
/// the largest possible downward.
fn search_cost(vals: &Vec<u64>, m: usize) -> (r: Option<u64>)
    requires
        6 * m + 6 <= vals@.len(),
        forall|i: int| 0 <= i < vals@.len() ==> #[trigger] vals@[i] <= 1000000000000000u64,
        vals@[6 * m] >= 1,
        vals@[6 * m + 1] >= 1,
        vals@[6 * m + 2] >= 1,
        vals@[6 * m + 3] >= 1,
    ensures
        ({
            let ax = vals@[6 * m] as int;
            let ay = vals@[6 * m + 1] as int;
            let bx = vals@[6 * m + 2] as int;
            let by = vals@[6 * m + 3] as int;
            let px = vals@[6 * m + 4] as int;
            let py = vals@[6 * m + 5] as int;
            let start = min_int(px / (ax + bx), py / (ay + by));
            match r {
                Some(v) => try_press(ax, ay, bx, by, px, py, start) == Some(v as int),
                None => try_press(ax, ay, bx, by, px, py, start) is None,
            }
        }),
{
    let n = vals.len();
    proof {
        assert(6 * (m as int) + 6 <= n as int);
    }
    let ax = vals[6 * m];
    let ay = vals[6 * m + 1];
    let bx = vals[6 * m + 2];
    let by = vals[6 * m + 3];
    let px = vals[6 * m + 4];
    let py = vals[6 * m + 5];
    let m1 = px / (ax + bx);
    let m2 = py / (ay + by);
    let start = if m1 <= m2 {
        m1
    } else {
        m2
    };
    let ghost axi = ax as int;
    let ghost ayi = ay as int;
    let ghost bxi = bx as int;
    let ghost byi = by as int;
    let ghost pxi = px as int;
    let ghost pyi = py as int;
    let mut i = start;
    let mut live = true;
    loop
        invariant
            6 * m + 6 <= vals@.len(),
            axi == vals@[6 * (m as int)] as int,
            ayi == vals@[6 * (m as int) + 1] as int,
            bxi == vals@[6 * (m as int) + 2] as int,
            byi == vals@[6 * (m as int) + 3] as int,
            pxi == vals@[6 * (m as int) + 4] as int,
            pyi == vals@[6 * (m as int) + 5] as int,
            axi == ax as int && ayi == ay as int && bxi == bx as int && byi == by as int,
            pxi == px as int && pyi == py as int,
            ax >= 1 && ay >= 1 && bx >= 1 && by >= 1,
            ax <= 1000000000000000u64 && ay <= 1000000000000000u64,
            bx <= 1000000000000000u64 && by <= 1000000000000000u64,
            px <= 1000000000000000u64 && py <= 1000000000000000u64,
            start as int == min_int(pxi / (axi + bxi), pyi / (ayi + byi)),
            i <= start,
            live ==> try_press(axi, ayi, bxi, byi, pxi, pyi, start as int) == try_press(
                axi,
                ayi,
                bxi,
                byi,
                pxi,
                pyi,
                i as int,
            ),
            !live ==> try_press(axi, ayi, bxi, byi, pxi, pyi, start as int) is None,
        ensures
            !live,
            try_press(axi, ayi, bxi, byi, pxi, pyi, start as int) is None,
        decreases i + 1, (if live {
            1int
        } else {
            0int
        }),
    {
        if !live {
            break ;
        }
        proof {
            assert(axi + bxi >= 1);
            assert((axi + bxi) * (i as int) <= pxi) by (nonlinear_arith)
                requires
                    axi + bxi >= 1,
                    0 <= i as int <= pxi / (axi + bxi),
                    pxi >= 0,
            ;
            assert((ayi + byi) * (i as int) <= pyi) by (nonlinear_arith)
                requires
                    ayi + byi >= 1,
                    0 <= i as int <= pyi / (ayi + byi),
                    pyi >= 0,
            ;
        }
        let x = px - (ax + bx) * i;
        let y = py - (ay + by) * i;
        proof {
            assert(x as int == pxi - (axi + bxi) * (i as int));
            assert(y as int == pyi - (ayi + byi) * (i as int));
        }
        if x % ax == 0 && y % ay == 0 && x / ax == y / ay {
            proof {
                assert(press_hit(x as int, y as int, axi, ayi) == Some((x / ax) as int));
            }
            return Some(4 * i + 3 * (x / ax));
        }
        proof {
            assert(press_hit(x as int, y as int, axi, ayi) is None);
        }
        if x % bx == 0 && y % by == 0 && x / bx == y / by {
            proof {
                assert(press_hit(x as int, y as int, bxi, byi) == Some((x / bx) as int));
            }
            return Some(4 * i + x / bx);
        }
        proof {
            assert(press_hit(x as int, y as int, bxi, byi) is None);
        }
        if i == 0 {
            proof {
                assert(try_press(axi, ayi, bxi, byi, pxi, pyi, -1) is None);
            }
            live = false;
        } else {
            i -= 1;
        }
    }
    None
}

/// How each machine's values sit in the flattened list.
proof fn lemma_machine_vals(nb: Seq<Seq<u8>>, vals: Seq<u64>, m: int)
    requires
        vals.len() == 2 * nb.len(),
        0 <= m,
        3 * m + 3 <= nb.len(),
        forall|i: int|
            0 <= i < vals.len() ==> #[trigger] vals[i] as nat == line_runs(nb[i / 2])[i % 2],
    ensures
        forall|k: int| 0 <= k < 6 ==> machine_val(nb, m, k) == vals[6 * m + k] as int,
{
    assert forall|k: int| 0 <= k < 6 implies machine_val(nb, m, k) == vals[6 * m + k] as int by {
        assert((6 * m + k) / 2 == 3 * m + k / 2);
        assert((6 * m + k) % 2 == k % 2);
        assert(vals[6 * m + k] as nat == line_runs(nb[3 * m + k / 2])[k % 2]);
    }
}

/// A prefix of the machines never costs more than all of them.
proof fn lemma_sum_costs_mono(nb: Seq<Seq<u8>>, a: int, b: int, exact: bool)
    requires
        0 <= a <= b,
    ensures
        sum_costs(nb, a, exact) <= sum_costs(nb, b, exact),
    decreases b - a,
{
    if a < b {
        lemma_sum_costs_mono(nb, a + 1, b, exact);
    }
}

/// The fewest tokens to win every winnable prize, searching press counts.
pub fn part_one(input: &str) -> (r: Option<u32>)
    requires
        input.spec_bytes().len() < usize::MAX,
    ensures
        r == spec_part_one(input.spec_bytes()),
{
    let ghost ls = spec_lines(input.spec_bytes());
    let ghost nbs = nonblank(ls);
    let vals = match read_machines(input) {
        None => {
            return None;
        },
        Some(v) => v,
    };
    let count = vals.len() / 6;
    let mut total: u64 = 0;
    let mut m: usize = 0;
    while m < count
        invariant
            ls == spec_lines(input.spec_bytes()),
            nbs == nonblank(ls),
            valid_input(ls),
            vals@.len() == 2 * nbs.len(),
            vals@.len() % 6 == 0,
            count == vals@.len() / 6,
            count == nbs.len() / 3,
            forall|i: int|
                0 <= i < vals@.len() ==> #[trigger] vals@[i] as nat == line_runs(
                    nbs[i / 2],
                )[i % 2],
            forall|i: int| 0 <= i < vals@.len() ==> #[trigger] vals@[i] <= 1000000000000000u64,
            m <= count,
            total as nat == sum_costs(nbs, m as int, false),
            total <= u32::MAX as u64,
        decreases count - m,
    {
        proof {
            lemma_machine_vals(nbs, vals@, m as int);
            assert(vals@[6 * m] as nat == line_runs(nbs[3 * m])[0]);
            assert(vals@[6 * m + 1] as nat == line_runs(nbs[3 * m])[1]);
            assert(vals@[6 * m + 2] as nat == line_runs(nbs[3 * m + 1])[0]);
            assert(vals@[6 * m + 3] as nat == line_runs(nbs[3 * m + 1])[1]);
            assert((3 * m as int) % 3 == 0 && (3 * m as int + 1) % 3 == 1);
        }
        let c = search_cost(&vals, m);
        match c {
            Some(v) => {
                proof {
                    if v > u32::MAX as u64 {
                        lemma_sum_costs_mono(nbs, m + 1, (nbs.len() / 3) as int, false);
                    }
                }
                if v > u32::MAX as u64 {
                    return None;
                }
                total = total + v;
                if total > u32::MAX as u64 {
                    proof {
                        lemma_sum_costs_mono(nbs, m + 1, (nbs.len() / 3) as int, false);
                    }
                    return None;
                }
            },
            None => {},
        }
        m += 1;
    }
    Some(total as u32)
}

/// The fewest tokens with the prizes shifted out, solved exactly.
pub fn part_two(input: &str) -> (r: Option<u64>)
    requires
        input.spec_bytes().len() < usize::MAX,
    ensures
        r == spec_part_two(input.spec_bytes()),
{
    let ghost ls = spec_lines(input.spec_bytes());
    let ghost nbs = nonblank(ls);
    let vals = match read_machines(input) {
        None => {
            return None;
        },
        Some(v) => v,
    };
    let count = vals.len() / 6;
    let mut total: u64 = 0;
    let mut m: usize = 0;
    while m < count
        invariant
            ls == spec_lines(input.spec_bytes()),
            nbs == nonblank(ls),
            valid_input(ls),
            vals@.len() == 2 * nbs.len(),
            vals@.len() % 6 == 0,
            count == vals@.len() / 6,
            count == nbs.len() / 3,
            forall|i: int|
                0 <= i < vals@.len() ==> #[trigger] vals@[i] as nat == line_runs(
                    nbs[i / 2],
                )[i % 2],
            forall|i: int| 0 <= i < vals@.len() ==> #[trigger] vals@[i] <= 1000000000000000u64,
            m <= count,
            total as nat == sum_costs(nbs, m as int, true),
            total <= u64::MAX as u64,
            forall|q: int|
                0 <= q < m ==> #[trigger] (machine_val(nbs, q, 0) * machine_val(nbs, q, 3)
                    - machine_val(nbs, q, 2) * machine_val(nbs, q, 1)) != 0,
        decreases count - m,
    {
        proof {
            lemma_machine_vals(nbs, vals@, m as int);
        }
        let c = match exact_cost(&vals, m) {
            None => {
                proof {
                    assert(machine_val(nbs, m as int, 0) * machine_val(nbs, m as int, 3)
                        - machine_val(nbs, m as int, 2) * machine_val(nbs, m as int, 1) == 0);
                    assert(!nonsingular(nbs));
                }
                return None;
            },
            Some(c) => c,
        };
        match c {
            Some(v) => {
                match total.checked_add(v) {
                    Some(next) => {
                        total = next;
                    },
                    None => {
                        proof {
                            lemma_sum_costs_mono(nbs, m + 1, (nbs.len() / 3) as int, true);
                        }
                        return None;
                    },
                }
            },
            None => {},
        }
        m += 1;
    }
    Some(total)
}

} // verus!
