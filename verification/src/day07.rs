//! Calibration equations: each line names a test total and a list of
//! operands; the total is reachable when some left-to-right placement of
//! operators produces it.  The operators are addition and multiplication,
//! and optionally digit concatenation.  The answer is the sum of the
//! reachable totals.

use vstd::prelude::*;

use crate::parsing::{
    spec_lines, spec_nums, split_lines, parse_nums, lemma_lines_count, is_digit, digits_val,
};
use vstd::arithmetic::div_mod::{lemma_small_mod, lemma_basic_div};
use vstd::string::StringSliceAdditionalSpecFns;

verus! {

/// The number of decimal digits of `n` (one for zero).
pub open spec fn num_digits(n: nat) -> nat
    decreases n,
{
    if n < 10 {
        1
    } else {
        1 + num_digits(n / 10)
    }
}

pub open spec fn pow10(k: nat) -> nat
    decreases k,
{
    if k == 0 {
        1
    } else {
        10 * pow10((k - 1) as nat)
    }
}

/// Inverting a trailing multiplication: the quotient left to produce.
pub open spec fn spec_check_mul(n: nat, total: nat) -> Option<nat> {
    if n != 0 && total % n == 0 {
        Some(total / n)
    } else {
        None
    }
}

/// Inverting a trailing addition: the difference left to produce.
pub open spec fn spec_check_add(n: nat, total: nat) -> Option<nat> {
    if total >= n {
        Some((total - n) as nat)
    } else {
        None
    }
}

/// Inverting a trailing concatenation: the prefix left to produce, when
/// `total` ends in the digits of `n`.
pub open spec fn spec_check_append(n: nat, total: nat) -> Option<nat> {
    if total % pow10(num_digits(n)) == n {
        Some(total / pow10(num_digits(n)))
    } else {
        None
    }
}

/// Whether applying operators left to right over `ns` can produce `total`,
/// explored from the right end by inverting each candidate operator: an
/// inverted multiplication divides, an inverted addition subtracts, and an
/// inverted concatenation strips the operand's digits off the low end.
pub open spec fn can_make(total: nat, ns: Seq<nat>, append: bool) -> bool
    decreases ns.len(),
{
    if ns.len() == 0 {
        total == 0
    } else {
        let n = ns.last();
        let rest = ns.drop_last();
        ||| (match spec_check_mul(n, total) {
            Some(next) => can_make(next, rest, append),
            None => false,
        })
        ||| (match spec_check_add(n, total) {
            Some(next) => can_make(next, rest, append),
            None => false,
        })
        ||| (append && match spec_check_append(n, total) {
            Some(next) => can_make(next, rest, append),
            None => false,
        })
    }
}

/// The position of the first `": "` separator.
pub open spec fn find_sep(l: Seq<u8>, k: int) -> Option<int>
    decreases l.len() - k,
{
    if k < 0 || k + 1 >= l.len() {
        None
    } else if l[k] == 58 && l[k + 1] == 32 {
        Some(k)
    } else {
        find_sep(l, k + 1)
    }
}

/// A line of the shape `total: n n n`, with every number in range.
pub open spec fn valid_line(l: Seq<u8>) -> bool {
    match find_sep(l, 0) {
        Some(i) => {
            &&& i >= 1
            &&& (forall|m: int| 0 <= m < i ==> is_digit(#[trigger] l[m]))
            &&& digits_val(l, 0, i) <= u128::MAX as nat
            &&& match spec_nums(l.skip(i + 2)) {
                Some(ns) => forall|k: int| 0 <= k < ns.len() ==> #[trigger] ns[k] <= u64::MAX
                    as nat,
                None => false,
            }
        },
        None => false,
    }
}

pub open spec fn line_total(l: Seq<u8>) -> nat {
    digits_val(l, 0, find_sep(l, 0).unwrap())
}

pub open spec fn line_operands(l: Seq<u8>) -> Seq<nat> {
    spec_nums(l.skip(find_sep(l, 0).unwrap() + 2)).unwrap()
}

pub open spec fn valid_lines(ls: Seq<Seq<u8>>) -> bool {
    forall|i: int| 0 <= i < ls.len() ==> valid_line(#[trigger] ls[i])
}

/// The sum of the reachable totals among the first `n` lines.
pub open spec fn sum_reachable(ls: Seq<Seq<u8>>, n: int, append: bool) -> nat
    decreases n,
{
    if n <= 0 || n > ls.len() {
        0
    } else {
        sum_reachable(ls, n - 1, append) + (if can_make(
            line_total(ls[n - 1]),
            line_operands(ls[n - 1]),
            append,
        ) {
            line_total(ls[n - 1])
        } else {
            0
        })
    }
}

pub open spec fn spec_solve(s: Seq<u8>, append: bool) -> Option<u128> {
    let ls = spec_lines(s);
    if valid_lines(ls) {
        let sum = sum_reachable(ls, ls.len() as int, append);
        if sum <= u128::MAX as nat {
            Some(sum as u128)
        } else {
            None
        }
    } else {
        None
    }
}

pub open spec fn spec_part_one(s: Seq<u8>) -> Option<u128> {
    spec_solve(s, false)
}

pub open spec fn spec_part_two(s: Seq<u8>) -> Option<u128> {
    spec_solve(s, true)
}

/// Inverting a trailing multiplication: the quotient to still produce, when
/// `total` is divisible.
pub fn check_mul(n: u128, total: u128) -> (r: Option<u128>)
    ensures
        match r {
            Some(v) => spec_check_mul(n as nat, total as nat) == Some(v as nat),
            None => spec_check_mul(n as nat, total as nat) is None,
        },
{
    if n != 0 && total % n == 0 {
        Some(total / n)
    } else {
        None
    }
}

/// Inverting a trailing addition: the difference to still produce.
pub fn check_add(n: u128, total: u128) -> (r: Option<u128>)
    ensures
        match r {
            Some(v) => spec_check_add(n as nat, total as nat) == Some(v as nat),
            None => spec_check_add(n as nat, total as nat) is None,
        },
{
    total.checked_sub(n)
}

/// The number of decimal digits of `n`.
pub(crate) fn count_digits(n: u128) -> (r: u32)
    ensures
        r as nat == num_digits(n as nat),
{
    let mut r: u32 = 1;
    let mut m = n;
    while m >= 10
        invariant
            num_digits(n as nat) == num_digits(m as nat) + r - 1,
            r <= 40,
        decreases m,
    {
        m = m / 10;
        r = r + 1;
        proof {
            assert(m as nat * 100 >= 0);
            assert(r <= 40) by {
                lemma_digits_bound(n as nat);
                lemma_digits_drop(n as nat, m as nat, r as nat);
            }
        }
    }
    r
}

/// Digit counts of 128-bit values are small.
pub(crate) proof fn lemma_digits_bound(n: nat)
    ensures
        num_digits(n) >= 1,
        n <= u128::MAX as nat ==> num_digits(n) <= 39,
    decreases n,
{
    if n >= 10 {
        lemma_digits_bound(n / 10);
        if n <= u128::MAX as nat {
            assert(num_digits(n / 10) <= 38) by {
                assert(pow10(38) > u128::MAX as nat / 10) by {
                    reveal_with_fuel(pow10, 40);
                }
                assert(n / 10 < pow10(38));
                lemma_digits_small(n / 10, 38);
            }
        }
    }
}

pub(crate) proof fn lemma_pow10_pos(k: nat)
    ensures
        pow10(k) >= 1,
    decreases k,
{
    if k > 0 {
        lemma_pow10_pos((k - 1) as nat);
        assert(pow10(k) == 10 * pow10((k - 1) as nat));
        assert(10 * pow10((k - 1) as nat) >= 1) by (nonlinear_arith)
            requires
                pow10((k - 1) as nat) >= 1,
        ;
    }
}

/// A value below `pow10(k)` has at most `k` digits.
proof fn lemma_digits_small(n: nat, k: nat)
    requires
        n < pow10(k),
        k >= 1,
    ensures
        num_digits(n) <= k,
    decreases k,
{
    if n >= 10 {
        assert(pow10(k) == 10 * pow10((k - 1) as nat));
        assert(n / 10 < pow10((k - 1) as nat)) by (nonlinear_arith)
            requires
                n < 10 * pow10((k - 1) as nat),
        ;
        lemma_digits_small(n / 10, (k - 1) as nat);
    }
}

proof fn lemma_digits_drop(n: nat, m: nat, r: nat)
    requires
        num_digits(n) == num_digits(m) + r - 1,
        num_digits(n) <= 39,
        num_digits(m) >= 1,
        r >= 1,
    ensures
        r <= 40,
{
}

/// `pow10(k)`, or `None` when it exceeds the 128-bit range.
pub(crate) fn pow10_exec(k: u32) -> (r: Option<u128>)
    ensures
        match r {
            Some(v) => v as nat == pow10(k as nat),
            None => pow10(k as nat) > u128::MAX as nat,
        },
{
    let mut acc: u128 = 1;
    let mut i: u32 = 0;
    while i < k
        invariant
            i <= k,
            acc as nat == pow10(i as nat),
        decreases k - i,
    {
        if acc > u128::MAX / 10 {
            proof {
                assert(10 * acc as nat > u128::MAX as nat) by (nonlinear_arith)
                    requires
                        acc as nat > u128::MAX as nat / 10,
                ;
                lemma_pow10_mono(i as nat + 1, k as nat);
            }
            return None;
        }
        acc = acc * 10;
        i = i + 1;
    }
    Some(acc)
}

pub(crate) proof fn lemma_pow10_mono(a: nat, b: nat)
    requires
        a <= b,
    ensures
        pow10(a) <= pow10(b),
    decreases b,
{
    if a < b {
        lemma_pow10_mono(a, (b - 1) as nat);
        assert(pow10(b) == 10 * pow10((b - 1) as nat));
        assert(pow10((b - 1) as nat) <= 10 * pow10((b - 1) as nat)) by (nonlinear_arith)
            requires
                pow10((b - 1) as nat) >= 0,
        ;
    }
}

/// Inverting a trailing concatenation: the prefix to still produce, when
/// `total` ends in the digits of `n`.
pub fn check_append(n: u128, total: u128) -> (r: Option<u128>)
    ensures
        match r {
            Some(v) => spec_check_append(n as nat, total as nat) == Some(v as nat),
            None => spec_check_append(n as nat, total as nat) is None,
        },
{
    let d = count_digits(n);
    match pow10_exec(d) {
        Some(mask) => {
            proof {
                lemma_pow10_pos(num_digits(n as nat));
            }
            if total % mask == n {
                Some(total / mask)
            } else {
                None
            }
        },
        None => {
            proof {
                lemma_small_mod(total as nat, pow10(num_digits(n as nat)));
                lemma_basic_div(total as int, pow10(num_digits(n as nat)) as int);
            }
            if total == n {
                Some(0)
            } else {
                None
            }
        },
    }
}

/// Whether the first `idx` operands can produce `total`.
fn reachable(total: u128, ns: &Vec<u128>, idx: usize, append: bool) -> (r: bool)
    requires
        idx <= ns@.len(),
    ensures
        r == can_make(total as nat, ns@.map_values(|x: u128| x as nat).take(idx as int), append),
    decreases idx,
{
    let ghost sq = ns@.map_values(|x: u128| x as nat).take(idx as int);
    if idx == 0 {
        total == 0
    } else {
        let n = ns[idx - 1];
        proof {
            assert(sq.last() == n as nat);
            assert(sq.drop_last() =~= ns@.map_values(|x: u128| x as nat).take(idx - 1));
            assert(sq.len() == idx);
        }
        let hit = match check_mul(n, total) {
            Some(next) => reachable(next, ns, idx - 1, append),
            None => false,
        };
        if hit {
            return true;
        }
        let hit = match check_add(n, total) {
            Some(next) => reachable(next, ns, idx - 1, append),
            None => false,
        };
        if hit {
            return true;
        }
        if append {
            let hit = match check_append(n, total) {
                Some(next) => reachable(next, ns, idx - 1, append),
                None => false,
            };
            if hit {
                return true;
            }
        }
        false
    }
}

/// Read one line's total and operands; `None` when the line is malformed.
fn read_line(line: &Vec<u8>) -> (r: Option<(u128, Vec<u128>)>)
    ensures
        match r {
            Some(tn) => {
                &&& valid_line(line@)
                &&& tn.0 as nat == line_total(line@)
                &&& tn.1@.map_values(|x: u128| x as nat) == line_operands(line@)
            },
            None => !valid_line(line@),
        },
{
    let s = line.as_slice();
    let n = s.len();
    // find the separator
    let mut i: usize = 0;
    loop
        invariant
            s@ == line@,
            n == line@.len(),
            i <= n,
            find_sep(line@, 0) == (if i + 1 <= n {
                find_sep(line@, i as int)
            } else {
                None::<int>
            }),
        ensures
            i + 1 < n,
            line@[i as int] == 58 && line@[i + 1] == 32,
            find_sep(line@, 0) == Some(i as int),
        decreases n - i,
    {
        if i >= n || n - i <= 1 {
            proof {
                if i < n {
                    assert(find_sep(line@, i as int) is None);
                }
            }
            return None;
        }
        if s[i] == 58 && s[i + 1] == 32 {
            proof {
                assert(find_sep(line@, i as int) == Some(i as int));
            }
            break ;
        }
        i += 1;
    }
    let sep = i;
    assert(find_sep(line@, 0) == Some(sep as int));
    if sep == 0 {
        return None;
    }
    // the total: the digits before the separator
    let mut total: u128 = 0;
    let mut t: usize = 0;
    while t < sep
        invariant
            s@ == line@,
            sep < n == line@.len(),
            t <= sep,
            total as nat == digits_val(line@, 0, t as int),
            forall|m: int| 0 <= m < t ==> is_digit(#[trigger] line@[m]),
            find_sep(line@, 0) == Some(sep as int),
        decreases sep - t,
    {
        let c = s[t];
        if c < 48 || c > 57 {
            proof {
                assert(!valid_line(line@));
            }
            return None;
        }
        let d = (c - 48) as u128;
        if total > (u128::MAX - d) / 10 {
            proof {
                assert(total as nat * 10 + d as nat > u128::MAX as nat) by (nonlinear_arith)
                    requires
                        total as nat > (u128::MAX as nat - d as nat) / 10,
                        d <= 9,
                ;
                lemma_digits_val_prefix_grows(line@, (t + 1) as int, sep as int);
                assert(!valid_line(line@));
            }
            return None;
        }
        proof {
            assert(total as nat * 10 + d as nat <= u128::MAX as nat) by (nonlinear_arith)
                requires
                    total as nat <= (u128::MAX as nat - d as nat) / 10,
                    d <= 9,
            ;
        }
        total = total * 10 + d;
        t += 1;
    }
    // the operands after the separator
    let rest = line.as_slice().split_at(sep + 2).1;
    proof {
        assert(rest@ =~= line@.skip(sep + 2));
    }
    let nums = match parse_nums(rest) {
        None => {
            proof {
                assert(!valid_line(line@));
            }
            return None;
        },
        Some(v) => v,
    };
    let mut out: Vec<u128> = Vec::new();
    let mut q: usize = 0;
    while q < nums.len()
        invariant
            q <= nums@.len(),
            Some(nums@.map_values(|x: u64| x as nat)) == spec_nums(line@.skip(sep + 2)),
            out@.len() == q,
            forall|z: int| 0 <= z < q ==> #[trigger] out@[z] == nums@[z] as u128,
        decreases nums@.len() - q,
    {
        let x = nums[q];
        out.push(x as u128);
        q += 1;
    }
    proof {
        assert(out@.map_values(|x: u128| x as nat) =~= nums@.map_values(|x: u64| x as nat));
        assert forall|k: int|
            0 <= k < line_operands(line@).len() implies #[trigger] line_operands(line@)[k]
            <= u64::MAX as nat by {
            assert(line_operands(line@)[k] == nums@.map_values(|x: u64| x as nat)[k]);
        }
        assert(valid_line(line@));
    }
    Some((total, out))
}

/// A digit prefix's value only grows as it lengthens.
proof fn lemma_digits_val_prefix_grows(l: Seq<u8>, a: int, b: int)
    requires
        0 <= a <= b <= l.len(),
    ensures
        digits_val(l, 0, a) <= digits_val(l, 0, b),
    decreases b - a,
{
    if a < b {
        lemma_digits_val_prefix_grows(l, a + 1, b);
        assert(digits_val(l, 0, a + 1) == digits_val(l, 0, a) * 10 + (l[a] - 48) as nat);
        assert(digits_val(l, 0, a) * 10 >= digits_val(l, 0, a)) by (nonlinear_arith)
            requires
                digits_val(l, 0, a) >= 0,
        ;
    }
}

/// The sum of the reachable totals under the chosen operator set.
pub fn solve(input: &str, append: bool) -> (r: Option<u128>)
    requires
        input.spec_bytes().len() < usize::MAX,
    ensures
        r == spec_solve(input.spec_bytes(), append),
{
    let ghost ls = spec_lines(input.spec_bytes());
    proof {
        lemma_lines_count(input.spec_bytes(), 0);
    }
    let lines = split_lines(input);
    let n = lines.len();
    let mut sum: u128 = 0;
    let mut i: usize = 0;
    while i < n
        invariant
            ls == spec_lines(input.spec_bytes()),
            n == lines@.len(),
            n == ls.len(),
            forall|j: int| 0 <= j < n ==> #[trigger] lines@[j]@ == ls[j],
            i <= n,
            sum as nat == sum_reachable(ls, i as int, append),
            forall|j: int| 0 <= j < i ==> valid_line(#[trigger] ls[j]),
        decreases n - i,
    {
        let (total, nums) = match read_line(&lines[i]) {
            None => {
                return None;
            },
            Some(tn) => tn,
        };
        proof {
            assert(nums@.map_values(|x: u128| x as nat).take(nums@.len() as int)
                =~= nums@.map_values(|x: u128| x as nat));
        }
        if reachable(total, &nums, nums.len(), append) {
            match sum.checked_add(total) {
                Some(next) => {
                    sum = next;
                },
                None => {
                    proof {
                        lemma_sum_reachable_grows(ls, i + 1, ls.len() as int, append);
                    }
                    return None;
                },
            }
        }
        i += 1;
    }
    Some(sum)
}

/// The running sum never shrinks as more lines are taken in.
proof fn lemma_sum_reachable_grows(ls: Seq<Seq<u8>>, a: int, b: int, append: bool)
    requires
        0 <= a <= b <= ls.len(),
    ensures
        sum_reachable(ls, a, append) <= sum_reachable(ls, b, append),
    decreases b - a,
{
    if a < b {
        lemma_sum_reachable_grows(ls, a + 1, b, append);
    }
}

/// The sum of the totals reachable with addition and multiplication.
pub fn part_one(input: &str) -> (r: Option<u128>)
    requires
        input.spec_bytes().len() < usize::MAX,
    ensures
        r == spec_part_one(input.spec_bytes()),
{
    solve(input, false)
}

/// The sum of the totals reachable once concatenation is allowed too.
pub fn part_two(input: &str) -> (r: Option<u128>)
    requires
        input.spec_bytes().len() < usize::MAX,
    ensures
        r == spec_part_two(input.spec_bytes()),
{
    solve(input, true)
}

} // verus!
