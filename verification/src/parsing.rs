//! Byte-level input parsing shared by the puzzle solutions: splitting an
//! input into lines and reading unsigned decimal numbers.

use vstd::prelude::*;

verus! {

pub use vstd::string::StringSliceAdditionalSpecFns;

pub open spec fn is_digit(c: u8) -> bool {
    48 <= c <= 57
}

/// The bytes `split_whitespace` separates tokens on, for ASCII input.
pub open spec fn is_space(c: u8) -> bool {
    c == 32 || c == 9 || c == 10 || c == 13
}

/// The index of the first line feed at or after `k`, or the input's length.
pub open spec fn next_newline(s: Seq<u8>, k: int) -> int
    decreases s.len() - k,
{
    if k < 0 || k >= s.len() {
        s.len() as int
    } else if s[k] == 10 {
        k
    } else {
        next_newline(s, k + 1)
    }
}

/// A line with its trailing carriage return removed.
pub open spec fn strip_cr(l: Seq<u8>) -> Seq<u8> {
    if l.len() > 0 && l.last() == 13 {
        l.drop_last()
    } else {
        l
    }
}

/// The lines of `s` from position `k` on: maximal runs without a line feed,
/// each with a trailing carriage return removed; a final line feed ends the
/// last line rather than opening an empty one.
pub open spec fn lines_from(s: Seq<u8>, k: int) -> Seq<Seq<u8>>
    decreases s.len() + 1 - k,
    via lines_from_decreases
{
    if k < 0 || k >= s.len() {
        Seq::empty()
    } else {
        let e = next_newline(s, k);
        seq![strip_cr(s.subrange(k, e))] + lines_from(s, e + 1)
    }
}

#[via_fn]
proof fn lines_from_decreases(s: Seq<u8>, k: int) {
    if 0 <= k < s.len() {
        lemma_next_newline_bounds(s, k);
    }
}

pub open spec fn spec_lines(s: Seq<u8>) -> Seq<Seq<u8>> {
    lines_from(s, 0)
}

pub proof fn lemma_next_newline_bounds(s: Seq<u8>, k: int)
    requires
        0 <= k <= s.len(),
    ensures
        k <= next_newline(s, k) <= s.len(),
        next_newline(s, k) < s.len() ==> s[next_newline(s, k)] == 10,
        forall|m: int| k <= m < next_newline(s, k) ==> s[m] != 10,
    decreases s.len() - k,
{
    if k < s.len() && s[k] != 10 {
        lemma_next_newline_bounds(s, k + 1);
    }
}

/// Split an input into its lines, as byte vectors.
pub fn split_lines(input: &str) -> (r: Vec<Vec<u8>>)
    requires
        input.spec_bytes().len() < usize::MAX,
    ensures
        r@.len() == spec_lines(input.spec_bytes()).len(),
        forall|i: int|
            0 <= i < r@.len() ==> #[trigger] r@[i]@ == spec_lines(input.spec_bytes())[i],
{
    let s = input.as_bytes();
    let ghost sq = input.spec_bytes();
    let n = s.len();
    let mut out: Vec<Vec<u8>> = Vec::new();
    let mut k: usize = 0;
    while k < n
        invariant
            s@ == sq,
            n == sq.len(),
            n < usize::MAX,
            k <= n + 1,
            spec_lines(sq).len() == out@.len() + lines_from(sq, k as int).len(),
            forall|i: int|
                0 <= i < out@.len() ==> #[trigger] out@[i]@ == spec_lines(sq)[i],
            forall|i: int|
                0 <= i < lines_from(sq, k as int).len() ==> #[trigger] lines_from(sq, k as int)[i]
                    == spec_lines(sq)[out@.len() + i],
        decreases n + 1 - k,
    {
        proof {
            lemma_next_newline_bounds(sq, k as int);
        }
        let ghost e_spec = next_newline(sq, k as int);
        let mut e: usize = k;
        while e < n && s[e] != 10
            invariant
                s@ == sq,
                n == sq.len(),
                k <= e <= n,
                next_newline(sq, k as int) == next_newline(sq, e as int),
            decreases n - e,
        {
            e += 1;
        }
        assert(e == e_spec);
        // drop a trailing carriage return
        let end = if e > k && s[e - 1] == 13 {
            e - 1
        } else {
            e
        };
        let mut line: Vec<u8> = Vec::new();
        let mut m: usize = k;
        while m < end
            invariant
                s@ == sq,
                n == sq.len(),
                k <= m <= end <= n,
                line@ == sq.subrange(k as int, m as int),
            decreases end - m,
        {
            let c = s[m];
            line.push(c);
            proof {
                assert(line@ =~= sq.subrange(k as int, m + 1));
            }
            m += 1;
        }
        proof {
            assert(line@ =~= strip_cr(sq.subrange(k as int, e as int)));
            assert(lines_from(sq, k as int) =~= seq![line@] + lines_from(sq, e + 1));
            assert(lines_from(sq, k as int)[0] == line@);
            assert forall|i: int|
                0 <= i < lines_from(sq, e + 1).len() implies #[trigger] lines_from(sq, e + 1)[i]
                == spec_lines(sq)[out@.len() + 1 + i] by {
                assert(lines_from(sq, k as int)[i + 1] == lines_from(sq, e + 1)[i]);
            }
        }
        out.push(line);
        k = e + 1;
    }
    proof {
        assert(lines_from(sq, k as int).len() == 0);
    }
    out
}

/// There are never more lines than bytes.
pub proof fn lemma_lines_count(s: Seq<u8>, k: int)
    requires
        0 <= k <= s.len(),
    ensures
        lines_from(s, k).len() <= s.len() - k,
    decreases s.len() - k,
{
    if k < s.len() {
        lemma_next_newline_bounds(s, k);
        let e = next_newline(s, k);
        if e + 1 <= s.len() {
            lemma_lines_count(s, e + 1);
        }
    }
}

/// The value of the decimal digits `s[k..e]`, most significant first.
pub open spec fn digits_val(s: Seq<u8>, k: int, e: int) -> nat
    decreases e - k,
{
    if k < 0 || e <= k || e > s.len() {
        0
    } else {
        digits_val(s, k, e - 1) * 10 + (s[e - 1] - 48) as nat
    }
}

/// The index of the first non-digit byte at or after `k`.
pub open spec fn digits_end(s: Seq<u8>, k: int) -> int
    decreases s.len() - k,
{
    if k < 0 || k >= s.len() {
        s.len() as int
    } else if !is_digit(s[k]) {
        k
    } else {
        digits_end(s, k + 1)
    }
}

pub proof fn lemma_digits_end_bounds(s: Seq<u8>, k: int)
    requires
        0 <= k <= s.len(),
    ensures
        k <= digits_end(s, k) <= s.len(),
        digits_end(s, k) < s.len() ==> !is_digit(s[digits_end(s, k)]),
        forall|m: int| k <= m < digits_end(s, k) ==> is_digit(s[m]),
    decreases s.len() - k,
{
    if k < s.len() && is_digit(s[k]) {
        lemma_digits_end_bounds(s, k + 1);
    }
}

/// The whitespace-separated decimal numbers of `s` from position `k` on, or
/// nothing if any other byte occurs.
pub open spec fn nums_from(s: Seq<u8>, k: int) -> Option<Seq<nat>>
    decreases s.len() - k,
    via nums_from_decreases
{
    if k < 0 || k >= s.len() {
        Some(Seq::empty())
    } else if is_space(s[k]) {
        nums_from(s, k + 1)
    } else if is_digit(s[k]) {
        let e = digits_end(s, k);
        match nums_from(s, e) {
            Some(rest) => Some(seq![digits_val(s, k, e)] + rest),
            None => None,
        }
    } else {
        None
    }
}

#[via_fn]
proof fn nums_from_decreases(s: Seq<u8>, k: int) {
    if 0 <= k < s.len() && !is_space(s[k]) && is_digit(s[k]) {
        lemma_digits_end_bounds(s, k);
    }
}

pub open spec fn spec_nums(s: Seq<u8>) -> Option<Seq<nat>> {
    nums_from(s, 0)
}

/// Whether every number is small enough for the result type.
pub open spec fn nums_fit(s: Seq<u8>, bound: nat) -> bool {
    match spec_nums(s) {
        Some(ns) => forall|i: int| 0 <= i < ns.len() ==> #[trigger] ns[i] <= bound,
        None => false,
    }
}

/// Read the whitespace-separated decimal numbers of `line`; `None` when a
/// stray byte occurs or a number does not fit in a `u64`.
pub fn parse_nums(line: &[u8]) -> (r: Option<Vec<u64>>)
    ensures
        match r {
            Some(v) => {
                &&& nums_fit(line@, u64::MAX as nat)
                &&& Some(v@.map_values(|x: u64| x as nat)) == spec_nums(line@)
            },
            None => !nums_fit(line@, u64::MAX as nat),
        },
{
    let s = line;
    let ghost sq = line@;
    let n = s.len();
    let mut out: Vec<u64> = Vec::new();
    let mut k: usize = 0;
    while k < n
        invariant
            sq == line@,
            s@ == sq,
            n == sq.len(),
            k <= n,
            ({
                let done = Some(out@.map_values(|x: u64| x as nat));
                match nums_from(sq, k as int) {
                    Some(rest) => {
                        &&& spec_nums(sq) == Some(done.unwrap() + rest)
                        &&& (forall|i: int| 0 <= i < rest.len() ==> rest[i] <= u64::MAX as nat)
                            ==> nums_fit(sq, u64::MAX as nat)
                    },
                    None => !nums_fit(sq, u64::MAX as nat),
                }
            }),
        decreases n - k,
    {
        let c = s[k];
        if c == 32 || c == 9 || c == 10 || c == 13 {
            k += 1;
        } else if 48 <= c && c <= 57 {
            proof {
                lemma_digits_end_bounds(sq, k as int);
            }
            let ghost e_spec = digits_end(sq, k as int);
            let mut e: usize = k;
            let mut acc: u64 = 0;
            let mut ok = true;
            while e < n && 48 <= s[e] && s[e] <= 57
                invariant
                    s@ == sq,
                    n == sq.len(),
                    k <= e <= n,
                    digits_end(sq, k as int) == digits_end(sq, e as int),
                    ok ==> acc as nat == digits_val(sq, k as int, e as int),
                    !ok ==> digits_val(sq, k as int, e as int) > u64::MAX as nat,
                    forall|m: int| k <= m < e ==> is_digit(sq[m]),
                decreases n - e,
            {
                let d = (s[e] - 48) as u64;
                if ok {
                    if acc <= (u64::MAX - d) / 10 {
                        proof {
                            assert(acc * 10 + d <= u64::MAX) by (nonlinear_arith)
                                requires
                                    acc <= (u64::MAX - d) / 10,
                                    d <= 9,
                            ;
                        }
                        acc = acc * 10 + d;
                    } else {
                        proof {
                            assert(acc * 10 + d > u64::MAX) by (nonlinear_arith)
                                requires
                                    acc > (u64::MAX - d) / 10,
                                    d <= 9,
                            ;
                        }
                        ok = false;
                    }
                } else {
                    proof {
                        assert(digits_val(sq, k as int, e + 1) >= digits_val(
                            sq,
                            k as int,
                            e as int,
                        ) * 10) by (nonlinear_arith)
                            requires
                                digits_val(sq, k as int, e + 1) == digits_val(
                                    sq,
                                    k as int,
                                    e as int,
                                ) * 10 + (sq[e as int] - 48) as nat,
                        ;
                    }
                }
                e += 1;
            }
            assert(e == e_spec);
            if !ok {
                proof {
                    assert(digits_val(sq, k as int, e as int) > u64::MAX as nat);
                    let v = digits_val(sq, k as int, e as int);
                    assert(digits_end(sq, k as int) == e as int);
                    assert(!is_space(sq[k as int]) && is_digit(sq[k as int]));
                    reveal_with_fuel(nums_from, 2);
                    match nums_from(sq, e as int) {
                        Some(rest) => {
                            assert(nums_from(sq, k as int) == Some(seq![v] + rest));
                            let done = out@.map_values(|x: u64| x as nat);
                            let ns = done + (seq![v] + rest);
                            assert(spec_nums(sq) == Some(ns));
                            assert(ns.len() > done.len());
                            assert(ns[done.len() as int] == v);
                            assert(v > u64::MAX as nat);
                            if nums_fit(sq, u64::MAX as nat) {
                                let ns2 = spec_nums(sq).unwrap();
                                assert(ns2 == ns);
                                assert(ns2[done.len() as int] <= u64::MAX as nat);
                                assert(false);
                            }
                        },
                        None => {
                            assert(nums_from(sq, k as int) is None);
                            assert(!nums_fit(sq, u64::MAX as nat));
                        },
                    }
                }
                return None;
            }
            out.push(acc);
            proof {
                let done_old = out@.drop_last().map_values(|x: u64| x as nat);
                let done_new = out@.map_values(|x: u64| x as nat);
                assert(done_new =~= done_old + seq![acc as nat]);
                match nums_from(sq, e as int) {
                    Some(rest) => {
                        assert(done_old + (seq![digits_val(sq, k as int, e as int)] + rest)
                            =~= done_new + rest);
                    },
                    None => {},
                }
            }
            k = e;
        } else {
            proof {
                assert(nums_from(sq, k as int) is None);
                assert(!nums_fit(sq, u64::MAX as nat));
            }
            return None;
        }
    }
    proof {
        let done = out@.map_values(|x: u64| x as nat);
        assert(done + Seq::<nat>::empty() =~= done);
        assert(spec_nums(sq) == Some(done));
        assert forall|i: int| 0 <= i < done.len() implies done[i] <= u64::MAX as nat by {
            assert(done[i] == out@[i] as nat);
        }
    }
    Some(out)
}

/// Numbers read liberally off a line: every maximal digit run.
pub open spec fn runs_from(s: Seq<u8>, k: int) -> Seq<nat>
    decreases s.len() - k,
    via runs_from_decreases
{
    if k < 0 || k >= s.len() {
        Seq::empty()
    } else if is_digit(s[k]) {
        seq![digits_val(s, k, digits_end(s, k))] + runs_from(s, digits_end(s, k))
    } else {
        runs_from(s, k + 1)
    }
}

#[via_fn]
proof fn runs_from_decreases(s: Seq<u8>, k: int) {
    if 0 <= k < s.len() && is_digit(s[k]) {
        lemma_digits_end_bounds(s, k);
    }
}

pub open spec fn line_runs(l: Seq<u8>) -> Seq<nat> {
    runs_from(l, 0)
}

} // verus!
