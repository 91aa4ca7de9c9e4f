//! Pairs of location ids in two columns: the total distance between the two
//! columns taken in sorted order, and a similarity score weighting each left
//! entry by its number of occurrences on the right.

use vstd::prelude::*;

use crate::parsing::{spec_lines, spec_nums, split_lines, parse_nums, lemma_lines_count};
use vstd::string::StringSliceAdditionalSpecFns;

verus! {

/// Every line holds at least two whitespace-separated numbers, each fitting
/// the original 32-bit entries.
pub open spec fn valid_line(l: Seq<u8>) -> bool {
    match spec_nums(l) {
        Some(ns) => {
            &&& ns.len() >= 2
            &&& (forall|k: int| 0 <= k < ns.len() ==> #[trigger] ns[k] <= u64::MAX as nat)
            &&& ns[0] <= u32::MAX as nat
            &&& ns[1] <= u32::MAX as nat
        },
        None => false,
    }
}

pub open spec fn valid_lines(ls: Seq<Seq<u8>>) -> bool {
    forall|i: int| 0 <= i < ls.len() ==> valid_line(#[trigger] ls[i])
}

/// The first number of each line.
pub open spec fn firsts(ls: Seq<Seq<u8>>) -> Seq<u64>
    decreases ls.len(),
{
    if ls.len() == 0 {
        Seq::empty()
    } else {
        let head = match spec_nums(ls[0]) {
            Some(ns) => (ns[0] as u64),
            None => 0u64,
        };
        seq![head] + firsts(ls.drop_first())
    }
}

/// The second number of each line.
pub open spec fn seconds(ls: Seq<Seq<u8>>) -> Seq<u64>
    decreases ls.len(),
{
    if ls.len() == 0 {
        Seq::empty()
    } else {
        let head = match spec_nums(ls[0]) {
            Some(ns) => (ns[1] as u64),
            None => 0u64,
        };
        seq![head] + seconds(ls.drop_first())
    }
}

/// `x` inserted just before the first element not smaller than it.
pub open spec fn insert_sorted(x: u64, s: Seq<u64>) -> Seq<u64>
    decreases s.len(),
{
    if s.len() == 0 {
        seq![x]
    } else if x <= s[0] {
        seq![x] + s
    } else {
        seq![s[0]] + insert_sorted(x, s.drop_first())
    }
}

/// Insertion sort of a sequence, the canonical ascending rearrangement.
pub open spec fn sort_seq(s: Seq<u64>) -> Seq<u64>
    decreases s.len(),
{
    if s.len() == 0 {
        Seq::empty()
    } else {
        insert_sorted(s[0], sort_seq(s.drop_first()))
    }
}

/// The sum of the absolute differences of corresponding entries.
pub open spec fn sum_abs_diffs(a: Seq<u64>, b: Seq<u64>) -> nat
    decreases a.len(),
{
    if a.len() == 0 || b.len() == 0 {
        0
    } else {
        (if a[0] >= b[0] {
            (a[0] - b[0]) as nat
        } else {
            (b[0] - a[0]) as nat
        }) + sum_abs_diffs(a.drop_first(), b.drop_first())
    }
}

/// How often `x` occurs in `s`.
pub open spec fn occurrences(s: Seq<u64>, x: u64) -> nat
    decreases s.len(),
{
    if s.len() == 0 {
        0
    } else {
        (if s[0] == x {
            1nat
        } else {
            0nat
        }) + occurrences(s.drop_first(), x)
    }
}

/// The similarity score: each left entry times its count on the right.
pub open spec fn similarity(a: Seq<u64>, b: Seq<u64>) -> nat
    decreases a.len(),
{
    if a.len() == 0 {
        0
    } else {
        (a[0] as nat) * occurrences(b, a[0]) + similarity(a.drop_first(), b)
    }
}

/// The total distance between the two columns in sorted order, or nothing
/// when a line is malformed or a value does not fit.
pub open spec fn spec_part_one(s: Seq<u8>) -> Option<u32> {
    let ls = spec_lines(s);
    if valid_lines(ls) {
        let total = sum_abs_diffs(sort_seq(firsts(ls)), sort_seq(seconds(ls)));
        if total <= u32::MAX as nat {
            Some(total as u32)
        } else {
            None
        }
    } else {
        None
    }
}

/// The similarity score of the two columns, or nothing when a line is
/// malformed or a value does not fit.
pub open spec fn spec_part_two(s: Seq<u8>) -> Option<u32> {
    let ls = spec_lines(s);
    if valid_lines(ls) {
        let total = similarity(firsts(ls), seconds(ls));
        if total <= u32::MAX as nat {
            Some(total as u32)
        } else {
            None
        }
    } else {
        None
    }
}

/// Read the two columns; `None` when a line is malformed.
fn read_columns(input: &str) -> (r: Option<(Vec<u64>, Vec<u64>)>)
    requires
        input.spec_bytes().len() < usize::MAX,
    ensures
        match r {
            Some(cols) => {
                &&& valid_lines(spec_lines(input.spec_bytes()))
                &&& cols.0@ == firsts(spec_lines(input.spec_bytes()))
                &&& cols.1@ == seconds(spec_lines(input.spec_bytes()))
            },
            None => !valid_lines(spec_lines(input.spec_bytes())),
        },
{
    let ghost ls = spec_lines(input.spec_bytes());
    let lines = split_lines(input);
    let n = lines.len();
    let mut left: Vec<u64> = Vec::new();
    let mut right: Vec<u64> = Vec::new();
    let mut i: usize = 0;
    while i < n
        invariant
            ls == spec_lines(input.spec_bytes()),
            n == lines@.len(),
            n == ls.len(),
            forall|j: int| 0 <= j < n ==> #[trigger] lines@[j]@ == ls[j],
            i <= n,
            left@ == firsts(ls.take(i as int)),
            right@ == seconds(ls.take(i as int)),
            forall|j: int| 0 <= j < i ==> valid_line(#[trigger] ls[j]),
        decreases n - i,
    {
        let line = &lines[i];
        match parse_nums(line.as_slice()) {
            None => {
                proof {
                    assert(!valid_line(ls[i as int]));
                }
                return None;
            },
            Some(ns) => {
                if ns.len() < 2 {
                    proof {
                        assert(!valid_line(ls[i as int]));
                    }
                    return None;
                }
                let a = ns[0];
                let b = ns[1];
                if a > u32::MAX as u64 || b > u32::MAX as u64 {
                    proof {
                        assert(spec_nums(ls[i as int]).unwrap()[0] == ns@.map_values(
                            |x: u64| x as nat,
                        )[0]);
                        assert(spec_nums(ls[i as int]).unwrap()[1] == ns@.map_values(
                            |x: u64| x as nat,
                        )[1]);
                        assert(!valid_line(ls[i as int]));
                    }
                    return None;
                }
                proof {
                    assert forall|k: int|
                        0 <= k < spec_nums(ls[i as int]).unwrap().len()
                        implies #[trigger] spec_nums(ls[i as int]).unwrap()[k] <= u64::MAX
                        as nat by {
                        assert(spec_nums(ls[i as int]).unwrap()[k] == ns@.map_values(
                            |x: u64| x as nat,
                        )[k]);
                    }
                    assert(valid_line(ls[i as int]));
                }
                left.push(a);
                right.push(b);
                proof {
                    let ghost t = ls.take(i + 1);
                    assert(t.drop_first() =~= ls.subrange(1, i + 1));
                    assert(spec_nums(ls[i as int]).unwrap()[0] == ns@.map_values(
                        |x: u64| x as nat,
                    )[0]);
                    assert(spec_nums(ls[i as int]).unwrap()[1] == ns@.map_values(
                        |x: u64| x as nat,
                    )[1]);
                    lemma_firsts_take(ls, i as int, a, b);
                    assert(left@ =~= firsts(ls.take(i + 1)));
                    assert(right@ =~= seconds(ls.take(i + 1)));
                }
            },
        }
        i += 1;
    }
    proof {
        assert(ls.take(n as int) =~= ls);
    }
    Some((left, right))
}

/// Appending a line extends the two columns by its first two numbers.
proof fn lemma_firsts_take(ls: Seq<Seq<u8>>, i: int, a: u64, b: u64)
    requires
        0 <= i < ls.len(),
        spec_nums(ls[i]) is Some,
        spec_nums(ls[i]).unwrap().len() >= 2,
        a as nat == spec_nums(ls[i]).unwrap()[0],
        b as nat == spec_nums(ls[i]).unwrap()[1],
        a <= u32::MAX as u64,
        b <= u32::MAX as u64,
    ensures
        firsts(ls.take(i + 1)) == firsts(ls.take(i)).push(a),
        seconds(ls.take(i + 1)) == seconds(ls.take(i)).push(b),
    decreases i,
{
    if i == 0 {
        assert(ls.take(1).drop_first() =~= Seq::<Seq<u8>>::empty());
        assert(ls.take(1)[0] == ls[0]);
        assert((spec_nums(ls[0]).unwrap()[0]) as u64 == a);
        assert((spec_nums(ls[0]).unwrap()[1]) as u64 == b);
        assert(firsts(Seq::<Seq<u8>>::empty()).len() == 0);
        assert(seconds(Seq::<Seq<u8>>::empty()).len() == 0);
        assert(firsts(ls.take(0)).len() == 0);
        assert(seconds(ls.take(0)).len() == 0);
        assert(firsts(ls.take(1)) =~= firsts(ls.take(0)).push(a));
        assert(seconds(ls.take(1)) =~= seconds(ls.take(0)).push(b));
    } else {
        lemma_firsts_take(ls.drop_first(), i - 1, a, b);
        assert(ls.take(i + 1).drop_first() =~= ls.drop_first().take(i));
        assert(ls.take(i).drop_first() =~= ls.drop_first().take(i - 1));
        assert(ls.take(i + 1)[0] == ls[0]);
        assert(ls.take(i)[0] == ls[0]);
        assert(ls.drop_first()[i - 1] == ls[i]);
        assert(firsts(ls.take(i + 1)) =~= firsts(ls.take(i)).push(a));
        assert(seconds(ls.take(i + 1)) =~= seconds(ls.take(i)).push(b));
    }
}

/// `insert_sorted` is insertion at the first position holding an element not
/// smaller than `x`.
proof fn lemma_insert_sorted_at(x: u64, s: Seq<u64>, j: int)
    requires
        0 <= j <= s.len(),
        forall|m: int| 0 <= m < j ==> s[m] < x,
        j < s.len() ==> x <= s[j],
    ensures
        insert_sorted(x, s) == s.insert(j, x),
    decreases s.len(),
{
    if s.len() == 0 {
        assert(insert_sorted(x, s) =~= s.insert(0, x));
    } else if x <= s[0] {
        assert(j == 0);
        assert(insert_sorted(x, s) =~= s.insert(0, x));
    } else {
        assert(s[0] < x);
        assert(j >= 1);
        lemma_insert_sorted_at(x, s.drop_first(), j - 1);
        assert(insert_sorted(x, s) == seq![s[0]] + s.drop_first().insert(j - 1, x));
        assert(seq![s[0]] + s.drop_first().insert(j - 1, x) =~= s.insert(j, x));
    }
}

/// Sort a column ascending by repeated sorted insertion.
fn sort_column(v: &Vec<u64>) -> (r: Vec<u64>)
    ensures
        r@ == sort_seq(v@),
{
    let n = v.len();
    let mut out: Vec<u64> = Vec::new();
    let mut i: usize = n;
    while i > 0
        invariant
            n == v@.len(),
            i <= n,
            out@ == sort_seq(v@.skip(i as int)),
        decreases i,
    {
        i -= 1;
        let x = v[i];
        // find the first position holding an element not smaller than x
        let mut j: usize = 0;
        while j < out.len() && out[j] < x
            invariant
                j <= out@.len(),
                forall|m: int| 0 <= m < j ==> out@[m] < x,
            decreases out@.len() - j,
        {
            j += 1;
        }
        proof {
            lemma_insert_sorted_at(x, out@, j as int);
            assert(v@.skip(i as int).drop_first() =~= v@.skip(i + 1));
            assert(v@.skip(i as int)[0] == v@[i as int]);
        }
        out.insert(j, x);
    }
    proof {
        assert(v@.skip(0) =~= v@);
    }
    out
}

/// The total distance between the left and right columns in sorted order.
pub fn part_one(input: &str) -> (r: Option<u32>)
    requires
        input.spec_bytes().len() < usize::MAX / 2,
    ensures
        r == spec_part_one(input.spec_bytes()),
{
    let ghost ls = spec_lines(input.spec_bytes());
    let cols = match read_columns(input) {
        None => {
            return None;
        },
        Some(cols) => cols,
    };
    let left = sort_column(&cols.0);
    let right = sort_column(&cols.1);
    let n = left.len();
    proof {
        lemma_lines_count(input.spec_bytes(), 0);
        lemma_sort_len(firsts(ls));
        lemma_sort_len(seconds(ls));
        lemma_firsts_len(ls);
        lemma_columns_bounded(ls);
        lemma_sorted_bounded(firsts(ls));
        lemma_sorted_bounded(seconds(ls));
    }
    let mut total: u64 = 0;
    let mut i: usize = 0;
    while i < n
        invariant
            ls == spec_lines(input.spec_bytes()),
            valid_lines(ls),
            n == left@.len(),
            left@ == sort_seq(firsts(ls)),
            right@ == sort_seq(seconds(ls)),
            right@.len() == n,
            i <= n,
            total as nat == sum_abs_diffs(left@.take(i as int), right@.take(i as int)),
            total <= u32::MAX as u64,
            forall|m: int| 0 <= m < n ==> #[trigger] left@[m] <= u32::MAX as u64,
            forall|m: int| 0 <= m < n ==> #[trigger] right@[m] <= u32::MAX as u64,
        decreases n - i,
    {
        let a = left[i];
        let b = right[i];
        let d = if a >= b {
            a - b
        } else {
            b - a
        };
        proof {
            lemma_sum_abs_take(left@, right@, i as int);
        }
        total = total + d;
        i += 1;
        if total > u32::MAX as u64 {
            proof {
                lemma_sum_abs_prefix_le(left@, right@, i as int);
                assert(left@.take(n as int) =~= left@);
                assert(right@.take(n as int) =~= right@);
            }
            return None;
        }
    }
    proof {
        assert(left@.take(n as int) =~= left@);
        assert(right@.take(n as int) =~= right@);
    }
    Some(total as u32)
}

/// A prefix of the columns never sums to more than the whole.
proof fn lemma_sum_abs_prefix_le(a: Seq<u64>, b: Seq<u64>, i: int)
    requires
        0 <= i <= a.len(),
        a.len() == b.len(),
    ensures
        sum_abs_diffs(a.take(i), b.take(i)) <= sum_abs_diffs(a, b),
    decreases a.len() - i,
{
    if i < a.len() {
        lemma_sum_abs_take(a, b, i);
        lemma_sum_abs_prefix_le(a, b, i + 1);
    } else {
        assert(a.take(i) =~= a);
        assert(b.take(i) =~= b);
    }
}

/// The sum over a prefix extends by one pair at a time.
proof fn lemma_sum_abs_take(a: Seq<u64>, b: Seq<u64>, i: int)
    requires
        0 <= i < a.len(),
        i < b.len(),
    ensures
        sum_abs_diffs(a.take(i + 1), b.take(i + 1)) == sum_abs_diffs(a.take(i), b.take(i)) + (
        if a[i] >= b[i] {
            (a[i] - b[i]) as nat
        } else {
            (b[i] - a[i]) as nat
        }),
    decreases i,
{
    if i == 0 {
        assert(a.take(1).drop_first() =~= Seq::<u64>::empty());
        assert(a.take(1)[0] == a[0]);
        assert(b.take(1)[0] == b[0]);
        assert(b.take(1).drop_first() =~= Seq::<u64>::empty());
        assert(sum_abs_diffs(Seq::<u64>::empty(), Seq::<u64>::empty()) == 0);
        assert(sum_abs_diffs(a.take(0), b.take(0)) == 0);
    } else {
        lemma_sum_abs_take(a.drop_first(), b.drop_first(), i - 1);
        assert(a.take(i + 1).drop_first() =~= a.drop_first().take(i));
        assert(a.take(i).drop_first() =~= a.drop_first().take(i - 1));
        assert(b.take(i + 1).drop_first() =~= b.drop_first().take(i));
        assert(b.take(i).drop_first() =~= b.drop_first().take(i - 1));
        assert(a.take(i + 1)[0] == a[0]);
        assert(b.take(i + 1)[0] == b[0]);
        assert(a.take(i)[0] == a[0]);
        assert(b.take(i)[0] == b[0]);
        assert(a.drop_first()[i - 1] == a[i]);
        assert(b.drop_first()[i - 1] == b[i]);
    }
}

proof fn lemma_sort_len(s: Seq<u64>)
    ensures
        sort_seq(s).len() == s.len(),
    decreases s.len(),
{
    if s.len() > 0 {
        lemma_sort_len(s.drop_first());
        lemma_insert_len(s[0], sort_seq(s.drop_first()));
    }
}

proof fn lemma_insert_len(x: u64, s: Seq<u64>)
    ensures
        insert_sorted(x, s).len() == s.len() + 1,
    decreases s.len(),
{
    if s.len() > 0 && !(x <= s[0]) {
        lemma_insert_len(x, s.drop_first());
    }
}

proof fn lemma_firsts_len(ls: Seq<Seq<u8>>)
    ensures
        firsts(ls).len() == ls.len(),
        seconds(ls).len() == ls.len(),
    decreases ls.len(),
{
    if ls.len() > 0 {
        lemma_firsts_len(ls.drop_first());
    }
}

/// Sorting keeps every element, so bounds on the input hold of the output.
proof fn lemma_insert_bounded(x: u64, s: Seq<u64>, bound: u64)
    requires
        x <= bound,
        forall|m: int| 0 <= m < s.len() ==> #[trigger] s[m] <= bound,
    ensures
        forall|m: int|
            0 <= m < insert_sorted(x, s).len() ==> #[trigger] insert_sorted(x, s)[m] <= bound,
    decreases s.len(),
{
    if s.len() == 0 {
    } else if x <= s[0] {
        assert(forall|m: int|
            1 <= m < insert_sorted(x, s).len() ==> insert_sorted(x, s)[m] == s[m - 1]);
    } else {
        assert(forall|m: int|
            0 <= m < s.drop_first().len() ==> #[trigger] s.drop_first()[m] <= bound);
        lemma_insert_bounded(x, s.drop_first(), bound);
        assert(forall|m: int|
            1 <= m < insert_sorted(x, s).len() ==> insert_sorted(x, s)[m] == insert_sorted(
                x,
                s.drop_first(),
            )[m - 1]);
    }
}

proof fn lemma_sorted_bounded_gen(s: Seq<u64>, bound: u64)
    requires
        forall|m: int| 0 <= m < s.len() ==> #[trigger] s[m] <= bound,
    ensures
        forall|m: int| 0 <= m < sort_seq(s).len() ==> #[trigger] sort_seq(s)[m] <= bound,
    decreases s.len(),
{
    if s.len() > 0 {
        assert(forall|m: int|
            0 <= m < s.drop_first().len() ==> #[trigger] s.drop_first()[m] <= bound);
        lemma_sorted_bounded_gen(s.drop_first(), bound);
        lemma_insert_bounded(s[0], sort_seq(s.drop_first()), bound);
    }
}

/// Entries read from valid lines are bounded by the 32-bit entry limit.
proof fn lemma_columns_bounded(ls: Seq<Seq<u8>>)
    requires
        valid_lines(ls),
    ensures
        forall|m: int| 0 <= m < firsts(ls).len() ==> #[trigger] firsts(ls)[m] <= u32::MAX as u64,
        forall|m: int|
            0 <= m < seconds(ls).len() ==> #[trigger] seconds(ls)[m] <= u32::MAX as u64,
    decreases ls.len(),
{
    if ls.len() > 0 {
        assert(valid_lines(ls.drop_first())) by {
            assert(forall|i: int|
                0 <= i < ls.drop_first().len() ==> #[trigger] ls.drop_first()[i] == ls[i + 1]);
        }
        lemma_columns_bounded(ls.drop_first());
        assert(valid_line(ls[0]));
        assert(forall|m: int|
            1 <= m < firsts(ls).len() ==> #[trigger] firsts(ls)[m] == firsts(ls.drop_first())[m
                - 1]);
        assert(forall|m: int|
            1 <= m < seconds(ls).len() ==> #[trigger] seconds(ls)[m] == seconds(
                ls.drop_first(),
            )[m - 1]);
    }
}

proof fn lemma_sorted_bounded(s: Seq<u64>)
    requires
        forall|m: int| 0 <= m < s.len() ==> #[trigger] s[m] <= u32::MAX as u64,
    ensures
        forall|m: int|
            0 <= m < sort_seq(s).len() ==> #[trigger] sort_seq(s)[m] <= u32::MAX as u64,
{
    lemma_sorted_bounded_gen(s, u32::MAX as u64);
}

/// The similarity score of the two columns.
pub fn part_two(input: &str) -> (r: Option<u32>)
    requires
        input.spec_bytes().len() < usize::MAX / 2,
    ensures
        r == spec_part_two(input.spec_bytes()),
{
    let ghost ls = spec_lines(input.spec_bytes());
    let cols = match read_columns(input) {
        None => {
            return None;
        },
        Some(cols) => cols,
    };
    let left = cols.0;
    let right = cols.1;
    let n = left.len();
    proof {
        lemma_lines_count(input.spec_bytes(), 0);
        lemma_firsts_len(ls);
        lemma_columns_bounded(ls);
    }
    let mut total: u64 = 0;
    let mut i: usize = 0;
    while i < n
        invariant
            ls == spec_lines(input.spec_bytes()),
            valid_lines(ls),
            n == left@.len(),
            left@ == firsts(ls),
            right@ == seconds(ls),
            right@.len() == n,
            n < usize::MAX,
            i <= n,
            total as nat == sim_take(left@, right@, i as int),
            total <= u32::MAX as u64,
            forall|m: int| 0 <= m < n ==> #[trigger] left@[m] <= u32::MAX as u64,
        decreases n - i,
    {
        let x = left[i];
        // count occurrences of x on the right
        let mut c: u64 = 0;
        let mut j: usize = 0;
        while j < n
            invariant
                n == right@.len(),
                n < usize::MAX,
                j <= n,
                c as nat == occurrences(right@.take(j as int), x),
                c <= j,
            decreases n - j,
        {
            proof {
                lemma_occurrences_take(right@, j as int, x);
            }
            if right[j] == x {
                c = c + 1;
            }
            j += 1;
        }
        proof {
            assert(right@.take(n as int) =~= right@);
            lemma_occurrences_le(right@, x);
            lemma_sim_take(left@, right@, i as int);
            assert((x as nat) < 0x100000000 && (c as nat) < usize::MAX as nat ==> (x as nat) * (
            c as nat) < (0x100000000 as nat) * (usize::MAX as nat)) by (nonlinear_arith);
        }
        let prod = (x as u128) * (c as u128);
        let capped = prod > u32::MAX as u128;
        if capped {
            proof {
                lemma_sim_prefix_le(left@, right@, i + 1);
                assert(left@.take(n as int) =~= left@);
            }
            return None;
        }
        total = total + (prod as u64);
        i += 1;
        if total > u32::MAX as u64 {
            proof {
                lemma_sim_prefix_le(left@, right@, i as int);
                assert(left@.take(n as int) =~= left@);
            }
            return None;
        }
    }
    proof {
        assert(total as nat == similarity(left@, right@)) by {
            lemma_sim_take_full(left@, right@);
        }
    }
    Some(total as u32)
}

/// A prefix of the left column never scores more than the whole.
proof fn lemma_sim_prefix_le(a: Seq<u64>, b: Seq<u64>, i: int)
    requires
        0 <= i <= a.len(),
    ensures
        sim_take(a, b, i) <= similarity(a, b),
    decreases a.len() - i,
{
    if i < a.len() {
        lemma_sim_take(a, b, i);
        lemma_sim_prefix_le(a, b, i + 1);
    } else {
        assert(a.take(i) =~= a);
    }
}

/// The similarity score of the first `i` left entries.
pub open spec fn sim_take(a: Seq<u64>, b: Seq<u64>, i: int) -> nat {
    similarity(a.take(i), b)
}

proof fn lemma_occurrences_take(b: Seq<u64>, j: int, x: u64)
    requires
        0 <= j < b.len(),
    ensures
        occurrences(b.take(j + 1), x) == occurrences(b.take(j), x) + (if b[j] == x {
            1nat
        } else {
            0nat
        }),
    decreases j,
{
    if j == 0 {
        assert(b.take(1).drop_first() =~= Seq::<u64>::empty());
        assert(b.take(1)[0] == b[0]);
        assert(occurrences(Seq::<u64>::empty(), x) == 0);
        assert(occurrences(b.take(0), x) == 0);
    } else {
        lemma_occurrences_take(b.drop_first(), j - 1, x);
        assert(b.take(j + 1).drop_first() =~= b.drop_first().take(j));
        assert(b.take(j).drop_first() =~= b.drop_first().take(j - 1));
        assert(b.take(j + 1)[0] == b[0]);
        assert(b.take(j)[0] == b[0]);
        assert(b.drop_first()[j - 1] == b[j]);
    }
}

proof fn lemma_occurrences_le(b: Seq<u64>, x: u64)
    ensures
        occurrences(b, x) <= b.len(),
    decreases b.len(),
{
    if b.len() > 0 {
        lemma_occurrences_le(b.drop_first(), x);
    }
}

proof fn lemma_sim_take(a: Seq<u64>, b: Seq<u64>, i: int)
    requires
        0 <= i < a.len(),
    ensures
        sim_take(a, b, i + 1) == sim_take(a, b, i) + (a[i] as nat) * occurrences(b, a[i]),
    decreases i,
{
    if i == 0 {
        assert(a.take(1).drop_first() =~= Seq::<u64>::empty());
        assert(a.take(1)[0] == a[0]);
        assert(similarity(Seq::<u64>::empty(), b) == 0);
        assert(similarity(a.take(0), b) == 0);
    } else {
        lemma_sim_take(a.drop_first(), b, i - 1);
        assert(a.take(i + 1).drop_first() =~= a.drop_first().take(i));
        assert(a.take(i).drop_first() =~= a.drop_first().take(i - 1));
        assert(a.take(i + 1)[0] == a[0]);
        assert(a.take(i)[0] == a[0]);
        assert(a.drop_first()[i - 1] == a[i]);
    }
}

proof fn lemma_sim_take_full(a: Seq<u64>, b: Seq<u64>)
    ensures
        sim_take(a, b, a.len() as int) == similarity(a, b),
{
    assert(a.take(a.len() as int) =~= a);
}

} // verus!
