//! Reports of levels, one per line: a report is safe when its levels are
//! strictly monotonic with steps of one to three; the dampened variant also
//! accepts a report that becomes safe after dropping a single level.

use vstd::prelude::*;

use crate::parsing::{spec_lines, spec_nums, split_lines, parse_nums, lemma_lines_count};
use vstd::string::StringSliceAdditionalSpecFns;

verus! {

/// The sign of the step from `a` down to `b`.
pub open spec fn step_sign(a: nat, b: nat) -> int {
    if a > b {
        1
    } else if a < b {
        -1
    } else {
        0
    }
}

pub open spec fn step_gap(a: nat, b: nat) -> nat {
    if a >= b {
        (a - b) as nat
    } else {
        (b - a) as nat
    }
}

/// All steps share the direction of the first one, with gaps of one to
/// three.
pub open spec fn safe_report(ns: Seq<nat>) -> bool
    recommends
        ns.len() >= 2,
{
    let d = step_sign(ns[0], ns[1]);
    forall|i: int|
        0 <= i < ns.len() - 1 ==> {
            &&& step_sign(#[trigger] ns[i], ns[i + 1]) == d
            &&& 1 <= step_gap(ns[i], ns[i + 1]) <= 3
        }
}

/// Safe once one level may be dropped.
pub open spec fn safe_dampened(ns: Seq<nat>) -> bool
    recommends
        ns.len() >= 2,
{
    safe_report(ns) || exists|k: int| 0 <= k < ns.len() && safe_report(ns.remove(k))
}

/// A line of at least two levels, each fitting the original 32-bit entries.
pub open spec fn valid_line(l: Seq<u8>) -> bool {
    match spec_nums(l) {
        Some(ns) => {
            &&& ns.len() >= 2
            &&& (forall|k: int| 0 <= k < ns.len() ==> #[trigger] ns[k] <= u32::MAX as nat)
        },
        None => false,
    }
}

pub open spec fn valid_lines(ls: Seq<Seq<u8>>) -> bool {
    forall|i: int| 0 <= i < ls.len() ==> valid_line(#[trigger] ls[i])
}

/// An unsafe two-level report leaves nothing to drop.
pub open spec fn valid_lines_dampened(ls: Seq<Seq<u8>>) -> bool {
    &&& valid_lines(ls)
    &&& forall|i: int|
        0 <= i < ls.len() ==> (safe_report(spec_nums(#[trigger] ls[i]).unwrap()) || spec_nums(
            ls[i],
        ).unwrap().len() >= 3)
}

/// How many of the first `n` lines pass `dampened` checking.
pub open spec fn count_safe(ls: Seq<Seq<u8>>, n: int, dampened: bool) -> nat
    decreases n,
{
    if n <= 0 || n > ls.len() {
        0
    } else {
        count_safe(ls, n - 1, dampened) + (if (dampened && safe_dampened(
            spec_nums(ls[n - 1]).unwrap(),
        )) || (!dampened && safe_report(spec_nums(ls[n - 1]).unwrap())) {
            1nat
        } else {
            0nat
        })
    }
}

/// The number of safe reports, or nothing when a line is malformed.
pub open spec fn spec_part_one(s: Seq<u8>) -> Option<u32> {
    let ls = spec_lines(s);
    if valid_lines(ls) {
        Some(count_safe(ls, ls.len() as int, false) as u32)
    } else {
        None
    }
}

/// The number of reports safe under the dampener, or nothing when a line is
/// malformed or an unsafe report is too short to dampen.
pub open spec fn spec_part_two(s: Seq<u8>) -> Option<u32> {
    let ls = spec_lines(s);
    if valid_lines_dampened(ls) {
        Some(count_safe(ls, ls.len() as int, true) as u32)
    } else {
        None
    }
}

/// Whether the report is safe: every step keeps the first step's direction
/// and spans one to three levels.
fn is_safe(v: &Vec<u64>) -> (r: bool)
    requires
        v@.len() >= 2,
    ensures
        r == safe_report(v@.map_values(|x: u64| x as nat)),
{
    let ghost ns = v@.map_values(|x: u64| x as nat);
    let n = v.len();
    let a0 = v[0];
    let b0 = v[1];
    let d: i8 = if a0 > b0 {
        1
    } else if a0 < b0 {
        -1
    } else {
        0
    };
    assert(d as int == step_sign(ns[0], ns[1]));
    let mut i: usize = 0;
    while i < n - 1
        invariant
            n == v@.len(),
            n >= 2,
            ns == v@.map_values(|x: u64| x as nat),
            d as int == step_sign(ns[0], ns[1]),
            i <= n - 1,
            forall|j: int|
                0 <= j < i ==> {
                    &&& step_sign(#[trigger] ns[j], ns[j + 1]) == d as int
                    &&& 1 <= step_gap(ns[j], ns[j + 1]) <= 3
                },
        decreases n - i,
    {
        let a = v[i];
        let b = v[i + 1];
        let ds: i8 = if a > b {
            1
        } else if a < b {
            -1
        } else {
            0
        };
        let gap = if a >= b {
            a - b
        } else {
            b - a
        };
        assert(ds as int == step_sign(ns[i as int], ns[i + 1]));
        assert(gap as nat == step_gap(ns[i as int], ns[i + 1]));
        if ds != d || gap < 1 || gap > 3 {
            return false;
        }
        i += 1;
    }
    true
}

/// Read a report line; `None` when it is malformed.
fn read_report(line: &Vec<u8>) -> (r: Option<Vec<u64>>)
    ensures
        match r {
            Some(v) => {
                &&& valid_line(line@)
                &&& v@.map_values(|x: u64| x as nat) == spec_nums(line@).unwrap()
                &&& v@.len() >= 2
            },
            None => !valid_line(line@),
        },
{
    match parse_nums(line.as_slice()) {
        None => {
            return None;
        },
        Some(ns) => {
            if ns.len() < 2 {
                return None;
            }
            let n = ns.len();
            let mut i: usize = 0;
            while i < n
                invariant
                    n == ns@.len(),
                    i <= n,
                    Some(ns@.map_values(|x: u64| x as nat)) == spec_nums(line@),
                    forall|k: int|
                        0 <= k < i ==> #[trigger] spec_nums(line@).unwrap()[k] <= u32::MAX
                            as nat,
                decreases n - i,
            {
                if ns[i] > u32::MAX as u64 {
                    proof {
                        assert(spec_nums(line@).unwrap()[i as int] == ns@.map_values(
                            |x: u64| x as nat,
                        )[i as int]);
                    }
                    return None;
                }
                proof {
                    assert(spec_nums(line@).unwrap()[i as int] == ns@.map_values(
                        |x: u64| x as nat,
                    )[i as int]);
                }
                i += 1;
            }
            Some(ns)
        },
    }
}

/// Count the safe reports.
pub fn part_one(input: &str) -> (r: Option<u32>)
    requires
        input.spec_bytes().len() < usize::MAX,
    ensures
        r == spec_part_one(input.spec_bytes()),
{
    let ghost ls = spec_lines(input.spec_bytes());
    proof {
        lemma_lines_count(input.spec_bytes(), 0);
    }
    let lines = split_lines(input);
    let n = lines.len();
    let mut count: usize = 0;
    let mut i: usize = 0;
    while i < n
        invariant
            ls == spec_lines(input.spec_bytes()),
            n == lines@.len(),
            n == ls.len(),
            forall|j: int| 0 <= j < n ==> #[trigger] lines@[j]@ == ls[j],
            i <= n,
            count <= i,
            count as nat == count_safe(ls, i as int, false),
            forall|j: int| 0 <= j < i ==> valid_line(#[trigger] ls[j]),
        decreases n - i,
    {
        let report = match read_report(&lines[i]) {
            None => {
                return None;
            },
            Some(v) => v,
        };
        if is_safe(&report) {
            count += 1;
        }
        i += 1;
    }
    Some(count as u32)
}

/// Count the reports that are safe once one level may be dropped.
pub fn part_two(input: &str) -> (r: Option<u32>)
    requires
        input.spec_bytes().len() < usize::MAX,
    ensures
        r == spec_part_two(input.spec_bytes()),
{
    let ghost ls = spec_lines(input.spec_bytes());
    proof {
        lemma_lines_count(input.spec_bytes(), 0);
    }
    let lines = split_lines(input);
    let n = lines.len();
    let mut count: usize = 0;
    let mut i: usize = 0;
    while i < n
        invariant
            ls == spec_lines(input.spec_bytes()),
            n == lines@.len(),
            n == ls.len(),
            forall|j: int| 0 <= j < n ==> #[trigger] lines@[j]@ == ls[j],
            i <= n,
            count <= i,
            count as nat == count_safe(ls, i as int, true),
            forall|j: int|
                0 <= j < i ==> valid_line(#[trigger] ls[j]) && (safe_report(
                    spec_nums(ls[j]).unwrap(),
                ) || spec_nums(ls[j]).unwrap().len() >= 3),
        decreases n - i,
    {
        let report = match read_report(&lines[i]) {
            None => {
                return None;
            },
            Some(v) => v,
        };
        let ghost ns = spec_nums(ls[i as int]).unwrap();
        if is_safe(&report) {
            count += 1;
        } else {
            if report.len() < 3 {
                return None;
            }
            // try dropping each level in turn
            let m = report.len();
            let mut found = false;
            let mut k: usize = 0;
            while k < m && !found
                invariant
                    m == report@.len(),
                    m >= 3,
                    ns == report@.map_values(|x: u64| x as nat),
                    k <= m,
                    found ==> exists|q: int| 0 <= q < m && safe_report(ns.remove(q)),
                    !found ==> forall|q: int| 0 <= q < k ==> !safe_report(ns.remove(q)),
                decreases m - k + (if found {
                    0int
                } else {
                    1int
                }),
            {
                let mut reduced: Vec<u64> = Vec::new();
                let mut t: usize = 0;
                while t < m
                    invariant
                        m == report@.len(),
                        k < m,
                        t <= m,
                        reduced@ == (if t <= k {
                            report@.take(t as int)
                        } else {
                            report@.take(k as int) + report@.subrange(k + 1, t as int)
                        }),
                    decreases m - t,
                {
                    if t != k {
                        let x = report[t];
                        reduced.push(x);
                        proof {
                            if t <= k {
                                assert(reduced@ =~= report@.take(t + 1));
                            } else {
                                assert(reduced@ =~= report@.take(k as int) + report@.subrange(
                                    k + 1,
                                    t + 1,
                                ));
                            }
                        }
                    } else {
                        proof {
                            assert(report@.take(k as int) + report@.subrange(k + 1, k + 1)
                                =~= report@.take(k as int));
                        }
                    }
                    t += 1;
                }
                proof {
                    assert(reduced@ =~= report@.remove(k as int));
                    assert(reduced@.map_values(|x: u64| x as nat) =~= ns.remove(k as int));
                }
                if is_safe(&reduced) {
                    found = true;
                } else {
                    k += 1;
                }
            }
            if found {
                count += 1;
            }
            proof {
                if !found {
                    assert(forall|q: int| 0 <= q < m ==> !safe_report(ns.remove(q)));
                    assert(!safe_dampened(ns));
                }
            }
        }
        i += 1;
    }
    Some(count as u32)
}

} // verus!
