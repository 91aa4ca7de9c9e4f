//! Page ordering: a first section of rules, one `a|b` pair per line, then
//! a blank line, then updates of page numbers.  An update is in order when
//! no later rule between two of its pages says otherwise; the answers sum
//! the middle pages of the ordered updates, and of the re-ordered
//! out-of-order ones.

use vstd::prelude::*;

use crate::parsing::{spec_lines, split_lines, line_runs};
use vstd::string::StringSliceAdditionalSpecFns;

verus! {

/// The index of the first blank line, or the line count.
pub open spec fn first_blank(ls: Seq<Seq<u8>>, k: int) -> int
    decreases ls.len() - k,
{
    if k < 0 || k >= ls.len() {
        ls.len() as int
    } else if ls[k].len() == 0 {
        k
    } else {
        first_blank(ls, k + 1)
    }
}

pub open spec fn rule_lines(ls: Seq<Seq<u8>>) -> Seq<Seq<u8>> {
    ls.take(first_blank(ls, 0))
}

pub open spec fn page_lines(ls: Seq<Seq<u8>>) -> Seq<Seq<u8>> {
    ls.skip(first_blank(ls, 0) + 1)
}

/// The ordered rule pairs, in reading order.
pub open spec fn rules_of(ls: Seq<Seq<u8>>) -> Seq<(nat, nat)> {
    Seq::new(rule_lines(ls).len(), |i: int| (line_runs(rule_lines(ls)[i])[0], line_runs(
        rule_lines(ls)[i],
    )[1]))
}

/// What the rules say of `a` against `b`: the latest rule naming the pair
/// wins, as re-inserting into the original's map overwrote earlier rules.
pub open spec fn rel(rs: Seq<(nat, nat)>, a: nat, b: nat) -> Option<bool>
    decreases rs.len(),
{
    if rs.len() == 0 {
        None
    } else if rs.last() == (a, b) {
        Some(true)
    } else if rs.last() == (b, a) {
        Some(false)
    } else {
        rel(rs.drop_last(), a, b)
    }
}

/// No later page is ruled to come before an earlier one.
pub open spec fn line_ok(rs: Seq<(nat, nat)>, ns: Seq<nat>) -> bool {
    forall|i: int, j: int| 0 <= i < j < ns.len() ==> rel(rs, ns[i], ns[j]) != Some(false)
}

/// `x` inserted just before the first element not ruled to come before it.
pub open spec fn insert_by(rs: Seq<(nat, nat)>, x: nat, s: Seq<nat>) -> Seq<nat>
    decreases s.len(),
{
    if s.len() == 0 {
        seq![x]
    } else if rel(rs, s[0], x) == Some(true) {
        seq![s[0]] + insert_by(rs, x, s.drop_first())
    } else {
        seq![x] + s
    }
}

/// Insertion sort under the rules.
pub open spec fn sort_by(rs: Seq<(nat, nat)>, s: Seq<nat>) -> Seq<nat>
    decreases s.len(),
{
    if s.len() == 0 {
        Seq::empty()
    } else {
        insert_by(rs, s[0], sort_by(rs, s.drop_first()))
    }
}

/// A rules section, a blank line, and updates of bounded page numbers.
pub open spec fn valid_input(ls: Seq<Seq<u8>>) -> bool {
    &&& first_blank(ls, 0) < ls.len()
    &&& forall|i: int|
        0 <= i < rule_lines(ls).len() ==> {
            let runs = line_runs(#[trigger] rule_lines(ls)[i]);
            runs.len() == 2 && runs[0] <= u32::MAX as nat && runs[1] <= u32::MAX as nat
        }
    &&& forall|i: int|
        0 <= i < page_lines(ls).len() ==> {
            let runs = line_runs(#[trigger] page_lines(ls)[i]);
            runs.len() >= 1 && (forall|k: int|
                0 <= k < runs.len() ==> #[trigger] runs[k] <= u32::MAX as nat)
        }
}

/// The summed middle pages of the first `n` updates: of the ordered ones
/// when `fix` is unset, of the re-ordered out-of-order ones when set.
pub open spec fn sum_middles(ls: Seq<Seq<u8>>, n: int, fix: bool) -> nat
    decreases n,
{
    let rs = rules_of(ls);
    let ps = page_lines(ls);
    if n <= 0 || n > ps.len() {
        0
    } else {
        let ns = line_runs(ps[n - 1]);
        sum_middles(ls, n - 1, fix) + (if !fix && line_ok(rs, ns) {
            ns[ns.len() as int / 2]
        } else if fix && !line_ok(rs, ns) {
            sort_by(rs, ns)[ns.len() as int / 2]
        } else {
            0
        })
    }
}

pub open spec fn spec_part_one(s: Seq<u8>) -> Option<u32> {
    let ls = spec_lines(s);
    if valid_input(ls) && sum_middles(ls, page_lines(ls).len() as int, false) <= u32::MAX as nat {
        Some(sum_middles(ls, page_lines(ls).len() as int, false) as u32)
    } else {
        None
    }
}

pub open spec fn spec_part_two(s: Seq<u8>) -> Option<u32> {
    let ls = spec_lines(s);
    if valid_input(ls) && sum_middles(ls, page_lines(ls).len() as int, true) <= u32::MAX as nat {
        Some(sum_middles(ls, page_lines(ls).len() as int, true) as u32)
    } else {
        None
    }
}

/// Read a line's digit runs capped at the 32-bit entries the original
/// parses; `None` when one is larger.
fn read_pages(line: &Vec<u8>) -> (r: Option<Vec<u64>>)
    ensures
        match r {
            Some(v) => {
                &&& v@.map_values(|x: u64| x as nat) == line_runs(line@)
                &&& forall|i: int| 0 <= i < v@.len() ==> #[trigger] v@[i] <= u32::MAX as u64
            },
            None => exists|i: int|
                0 <= i < line_runs(line@).len() && #[trigger] line_runs(line@)[i] > u32::MAX
                    as nat,
        },
{
    let s = line.as_slice();
    let ghost sq = line@;
    let n = s.len();
    let mut out: Vec<u64> = Vec::new();
    let mut k: usize = 0;
    while k < n
        invariant
            s@ == sq,
            sq == line@,
            n == sq.len(),
            k <= n,
            line_runs(sq) == out@.map_values(|x: u64| x as nat) + crate::parsing::runs_from(
                sq,
                k as int,
            ),
            forall|i: int| 0 <= i < out@.len() ==> #[trigger] out@[i] <= u32::MAX as u64,
        decreases n - k,
    {
        let c = s[k];
        if c < 48 || c > 57 {
            k += 1;
            continue ;
        }
        proof {
            crate::parsing::lemma_digits_end_bounds(sq, k as int);
        }
        let ghost e_spec = crate::parsing::digits_end(sq, k as int);
        let mut e: usize = k;
        let mut acc: u64 = 0;
        let mut ok = true;
        while e < n && 48 <= s[e] && s[e] <= 57
            invariant
                s@ == sq,
                n == sq.len(),
                k <= e <= n,
                crate::parsing::digits_end(sq, k as int) == crate::parsing::digits_end(
                    sq,
                    e as int,
                ),
                ok ==> acc as nat == crate::parsing::digits_val(sq, k as int, e as int) && acc
                    <= u32::MAX as u64,
                !ok ==> crate::parsing::digits_val(sq, k as int, e as int) > u32::MAX as nat,
                forall|m: int| k <= m < e ==> crate::parsing::is_digit(sq[m]),
            decreases n - e,
        {
            let d = (s[e] - 48) as u64;
            if ok {
                if acc <= (u32::MAX as u64 - d) / 10 && acc * 10 + d <= u32::MAX as u64 {
                    acc = acc * 10 + d;
                } else {
                    proof {
                        assert(acc > (u32::MAX as u64 - d) / 10 ==> acc * 10 + d > u32::MAX
                            as u64) by (nonlinear_arith)
                            requires
                                d <= 9,
                        ;
                    }
                    ok = false;
                }
            } else {
                proof {
                    assert(crate::parsing::digits_val(sq, k as int, e + 1)
                        >= crate::parsing::digits_val(sq, k as int, e as int) * 10)
                        by (nonlinear_arith)
                        requires
                            crate::parsing::digits_val(sq, k as int, e + 1)
                                == crate::parsing::digits_val(sq, k as int, e as int) * 10 + (
                            sq[e as int] - 48) as nat,
                    ;
                }
            }
            e += 1;
        }
        assert(e == e_spec);
        if !ok {
            proof {
                let done = out@.map_values(|x: u64| x as nat);
                assert(crate::parsing::runs_from(sq, k as int) == seq![
                    crate::parsing::digits_val(sq, k as int, e as int),
                ] + crate::parsing::runs_from(sq, e as int));
                assert(line_runs(sq)[done.len() as int] == crate::parsing::digits_val(
                    sq,
                    k as int,
                    e as int,
                ));
            }
            return None;
        }
        out.push(acc);
        proof {
            let done = out@.map_values(|x: u64| x as nat);
            assert(crate::parsing::runs_from(sq, k as int) == seq![acc as nat]
                + crate::parsing::runs_from(sq, e as int));
            assert(done =~= out@.drop_last().map_values(|x: u64| x as nat).push(acc as nat));
            assert(line_runs(sq) =~= done + crate::parsing::runs_from(sq, e as int));
        }
        k = e;
    }
    proof {
        assert(out@.map_values(|x: u64| x as nat) + crate::parsing::runs_from(sq, n as int)
            =~= out@.map_values(|x: u64| x as nat));
    }
    Some(out)
}

/// What the rules say of `a` against `b`, the latest applicable rule
/// winning.
fn lookup(rules: &Vec<(u64, u64)>, a: u64, b: u64) -> (r: Option<bool>)
    ensures
        r == rel(rules@.map_values(|p: (u64, u64)| (p.0 as nat, p.1 as nat)), a as nat, b as nat),
{
    let ghost rs = rules@.map_values(|p: (u64, u64)| (p.0 as nat, p.1 as nat));
    let mut i = rules.len();
    proof {
        assert(rs.take(rules@.len() as int) =~= rs);
    }
    while i > 0
        invariant
            rs == rules@.map_values(|p: (u64, u64)| (p.0 as nat, p.1 as nat)),
            i <= rules@.len(),
            rel(rs, a as nat, b as nat) == rel(rs.take(i as int), a as nat, b as nat),
        decreases i,
    {
        i -= 1;
        let (x, y) = rules[i];
        proof {
            assert(rs.take(i + 1).last() == (x as nat, y as nat));
            assert(rs.take(i + 1).drop_last() =~= rs.take(i as int));
        }
        if x == a && y == b {
            proof {
                assert(rel(rs.take(i + 1), a as nat, b as nat) == Some(true));
            }
            return Some(true);
        }
        if x == b && y == a {
            proof {
                assert(rel(rs.take(i + 1), a as nat, b as nat) == Some(false));
            }
            return Some(false);
        }
        proof {
            assert(rel(rs.take(i + 1), a as nat, b as nat) == rel(
                rs.take(i as int),
                a as nat,
                b as nat,
            ));
        }
    }
    proof {
        assert(rs.take(0).len() == 0);
        assert(rel(rs.take(0), a as nat, b as nat) is None);
    }
    None
}

/// Whether the update lists its pages in rule order.
fn check_line(rules: &Vec<(u64, u64)>, ns: &Vec<u64>) -> (r: bool)
    ensures
        r == line_ok(
            rules@.map_values(|p: (u64, u64)| (p.0 as nat, p.1 as nat)),
            ns@.map_values(|x: u64| x as nat),
        ),
{
    let ghost rs = rules@.map_values(|p: (u64, u64)| (p.0 as nat, p.1 as nat));
    let ghost nss = ns@.map_values(|x: u64| x as nat);
    let n = ns.len();
    let mut i: usize = 0;
    while i < n
        invariant
            rs == rules@.map_values(|p: (u64, u64)| (p.0 as nat, p.1 as nat)),
            nss == ns@.map_values(|x: u64| x as nat),
            n == ns@.len(),
            i <= n,
            forall|p: int, q: int| 0 <= p < q < n && p < i ==> rel(rs, nss[p], nss[q]) != Some(
                false,
            ),
        decreases n - i,
    {
        let mut j = i + 1;
        while j < n
            invariant
                rs == rules@.map_values(|p: (u64, u64)| (p.0 as nat, p.1 as nat)),
                nss == ns@.map_values(|x: u64| x as nat),
                n == ns@.len(),
                i < n,
                i < j <= n,
                forall|q: int| i < q < j ==> rel(rs, nss[i as int], nss[q]) != Some(false),
            decreases n - j,
        {
            let verdict = lookup(rules, ns[i], ns[j]);
            proof {
                assert(nss[i as int] == ns@[i as int] as nat);
                assert(nss[j as int] == ns@[j as int] as nat);
            }
            if let Some(false) = verdict {
                proof {
                    assert(rel(rs, nss[i as int], nss[j as int]) == Some(false));
                    assert(!line_ok(rs, nss));
                }
                return false;
            }
            proof {
                assert(rel(rs, nss[i as int], nss[j as int]) != Some(false));
            }
            j += 1;
        }
        i += 1;
    }
    true
}

/// `insert_by` is insertion at the first position whose element is not
/// ruled to come before `x`.
proof fn lemma_insert_by_at(rs: Seq<(nat, nat)>, x: nat, s: Seq<nat>, j: int)
    requires
        0 <= j <= s.len(),
        forall|m: int| 0 <= m < j ==> rel(rs, s[m], x) == Some(true),
        j < s.len() ==> rel(rs, s[j], x) != Some(true),
    ensures
        insert_by(rs, x, s) == s.insert(j, x),
    decreases s.len(),
{
    if s.len() == 0 {
        assert(insert_by(rs, x, s) =~= s.insert(0, x));
    } else if rel(rs, s[0], x) == Some(true) {
        assert(j >= 1);
        lemma_insert_by_at(rs, x, s.drop_first(), j - 1);
        assert(insert_by(rs, x, s) == seq![s[0]] + s.drop_first().insert(j - 1, x));
        assert(seq![s[0]] + s.drop_first().insert(j - 1, x) =~= s.insert(j, x));
    } else {
        assert(j == 0);
        assert(insert_by(rs, x, s) =~= s.insert(0, x));
    }
}

/// Re-order an update by repeated rule-guided insertion.
fn sort_pages(rules: &Vec<(u64, u64)>, v: &Vec<u64>) -> (r: Vec<u64>)
    ensures
        r@.map_values(|x: u64| x as nat) == sort_by(
            rules@.map_values(|p: (u64, u64)| (p.0 as nat, p.1 as nat)),
            v@.map_values(|x: u64| x as nat),
        ),
{
    let ghost rs = rules@.map_values(|p: (u64, u64)| (p.0 as nat, p.1 as nat));
    let ghost vs = v@.map_values(|x: u64| x as nat);
    let n = v.len();
    let mut out: Vec<u64> = Vec::new();
    let mut i: usize = n;
    while i > 0
        invariant
            rs == rules@.map_values(|p: (u64, u64)| (p.0 as nat, p.1 as nat)),
            vs == v@.map_values(|x: u64| x as nat),
            n == v@.len(),
            i <= n,
            out@.map_values(|x: u64| x as nat) == sort_by(rs, vs.skip(i as int)),
        decreases i,
    {
        i -= 1;
        let x = v[i];
        // find the first position whose element is not ruled before x
        let mut j: usize = 0;
        loop
            invariant
                rs == rules@.map_values(|p: (u64, u64)| (p.0 as nat, p.1 as nat)),
                j <= out@.len(),
                forall|m: int|
                    0 <= m < j ==> rel(rs, (#[trigger] out@[m]) as nat, x as nat) == Some(true),
            ensures
                j <= out@.len(),
                forall|m: int|
                    0 <= m < j ==> rel(rs, (#[trigger] out@[m]) as nat, x as nat) == Some(true),
                j < out@.len() ==> rel(rs, out@[j as int] as nat, x as nat) != Some(true),
            decreases out@.len() - j,
        {
            if j >= out.len() {
                break ;
            }
            match lookup(rules, out[j], x) {
                Some(true) => {
                    j += 1;
                },
                _ => {
                    break ;
                },
            }
        }
        let ghost prev = out@.map_values(|y: u64| y as nat);
        proof {
            assert(forall|m: int| 0 <= m < j ==> rel(rs, #[trigger] prev[m], x as nat) == Some(
                true,
            )) by {
                assert(forall|m: int| 0 <= m < prev.len() ==> #[trigger] prev[m] == out@[m]
                    as nat);
            }
            if (j as int) < prev.len() {
                assert(prev[j as int] == out@[j as int] as nat);
            }
            lemma_insert_by_at(rs, x as nat, prev, j as int);
            assert(vs.skip(i as int).drop_first() =~= vs.skip(i + 1));
            assert(vs.skip(i as int)[0] == vs[i as int]);
        }
        out.insert(j, x);
        proof {
            assert(out@.map_values(|y: u64| y as nat) =~= prev.insert(j as int, x as nat));
            assert(out@.map_values(|y: u64| y as nat) =~= sort_by(rs, vs.skip(i as int)));
        }
    }
    proof {
        assert(vs.skip(0) =~= vs);
    }
    out
}

/// Sum the middle pages of the ordered updates, or of the re-ordered
/// out-of-order ones.
fn solve(input: &str, fix: bool) -> (r: Option<u32>)
    requires
        input.spec_bytes().len() < usize::MAX,
    ensures
        r == (if fix {
            spec_part_two(input.spec_bytes())
        } else {
            spec_part_one(input.spec_bytes())
        }),
{
    let ghost ls = spec_lines(input.spec_bytes());
    let ghost rs = rules_of(ls);
    let lines = split_lines(input);
    let n = lines.len();
    // find the blank separator
    let mut blank: usize = 0;
    while blank < n && lines[blank].len() != 0
        invariant
            ls == spec_lines(input.spec_bytes()),
            n == lines@.len(),
            n == ls.len(),
            forall|j: int| 0 <= j < n ==> #[trigger] lines@[j]@ == ls[j],
            blank <= n,
            first_blank(ls, 0) == first_blank(ls, blank as int),
        decreases n - blank,
    {
        blank += 1;
    }
    assert(first_blank(ls, 0) == blank as int);
    if blank == n {
        return None;
    }
    // the rules
    let mut rules: Vec<(u64, u64)> = Vec::new();
    let mut i: usize = 0;
    proof {
        assert(rule_lines(ls).len() == blank as int);
    }
    while i < blank
        invariant
            ls == spec_lines(input.spec_bytes()),
            rs == rules_of(ls),
            n == lines@.len(),
            n == ls.len(),
            forall|j: int| 0 <= j < n ==> #[trigger] lines@[j]@ == ls[j],
            blank < n,
            first_blank(ls, 0) == blank as int,
            rule_lines(ls).len() == blank as int,
            i <= blank,
            rules@.len() == i,
            forall|j: int|
                0 <= j < i ==> ((#[trigger] rules@[j]).0 as nat, rules@[j].1 as nat) == rs[j],
            forall|j: int|
                0 <= j < i ==> {
                    let runs = line_runs(#[trigger] rule_lines(ls)[j]);
                    runs.len() == 2 && runs[0] <= u32::MAX as nat && runs[1] <= u32::MAX as nat
                },
        decreases blank - i,
    {
        proof {
            assert(rule_lines(ls)[i as int] == ls[i as int]);
        }
        let pair = match read_pages(&lines[i]) {
            None => {
                return None;
            },
            Some(v) => v,
        };
        if pair.len() != 2 {
            return None;
        }
        let a = pair[0];
        let b = pair[1];
        rules.push((a, b));
        proof {
            assert(a as nat == line_runs(rule_lines(ls)[i as int])[0]);
            assert(b as nat == line_runs(rule_lines(ls)[i as int])[1]);
            assert(((rules@[i as int]).0 as nat, (rules@[i as int]).1 as nat) == rs[i as int]);
        }
        i += 1;
    }
    proof {
        assert(rules@.map_values(|p: (u64, u64)| (p.0 as nat, p.1 as nat)) =~= rs);
    }
    // the updates
    let ghost ps = page_lines(ls);
    let pcount = n - blank - 1;
    proof {
        assert(ps.len() == pcount as int);
    }
    let mut total: u64 = 0;
    let mut t: usize = 0;
    while t < pcount
        invariant
            ls == spec_lines(input.spec_bytes()),
            rs == rules_of(ls),
            ps == page_lines(ls),
            rules@.map_values(|p: (u64, u64)| (p.0 as nat, p.1 as nat)) == rs,
            n == lines@.len(),
            n == ls.len(),
            forall|j: int| 0 <= j < n ==> #[trigger] lines@[j]@ == ls[j],
            blank < n,
            first_blank(ls, 0) == blank as int,
            rule_lines(ls).len() == blank as int,
            forall|j: int|
                0 <= j < blank ==> {
                    let runs = line_runs(#[trigger] rule_lines(ls)[j]);
                    runs.len() == 2 && runs[0] <= u32::MAX as nat && runs[1] <= u32::MAX as nat
                },
            pcount == n - blank - 1,
            ps.len() == pcount as int,
            t <= pcount,
            total as nat == sum_middles(ls, t as int, fix),
            total <= u32::MAX as u64,
            forall|j: int|
                0 <= j < t ==> {
                    let runs = line_runs(#[trigger] page_lines(ls)[j]);
                    runs.len() >= 1 && (forall|k: int|
                        0 <= k < runs.len() ==> #[trigger] runs[k] <= u32::MAX as nat)
                },
        decreases pcount - t,
    {
        proof {
            assert(ps[t as int] == ls[blank + 1 + t as int]);
        }
        let pages = match read_pages(&lines[blank + 1 + t]) {
            None => {
                return None;
            },
            Some(v) => v,
        };
        if pages.len() == 0 {
            return None;
        }
        let ghost nss = pages@.map_values(|x: u64| x as nat);
        let ok = check_line(&rules, &pages);
        let mid: u64 = if !fix && ok {
            pages[pages.len() / 2]
        } else if fix && !ok {
            let sorted = sort_pages(&rules, &pages);
            proof {
                lemma_sort_by_len(rs, nss);
            }
            sorted[sorted.len() / 2]
        } else {
            0
        };
        proof {
            if !fix && ok {
                assert(mid as nat == nss[nss.len() as int / 2]);
            }
            if fix && !ok {
                assert(mid as nat == sort_by(rs, nss)[nss.len() as int / 2]);
            }
            lemma_sort_by_bounded(rs, nss, u32::MAX as nat);
        }
        total = total + mid;
        t += 1;
        if total > u32::MAX as u64 {
            proof {
                lemma_sum_middles_mono(ls, t as int, ps.len() as int, fix);
            }
            return None;
        }
    }
    Some(total as u32)
}

/// Sorting keeps the update's length, and its middle page stays a page.
proof fn lemma_sort_by_len(rs: Seq<(nat, nat)>, s: Seq<nat>)
    ensures
        sort_by(rs, s).len() == s.len(),
    decreases s.len(),
{
    if s.len() > 0 {
        lemma_sort_by_len(rs, s.drop_first());
        lemma_insert_by_len(rs, s[0], sort_by(rs, s.drop_first()));
    }
}

proof fn lemma_insert_by_len(rs: Seq<(nat, nat)>, x: nat, s: Seq<nat>)
    ensures
        insert_by(rs, x, s).len() == s.len() + 1,
    decreases s.len(),
{
    if s.len() > 0 && rel(rs, s[0], x) == Some(true) {
        lemma_insert_by_len(rs, x, s.drop_first());
    }
}

/// Rule-guided insertion introduces no new pages beyond the bound.
proof fn lemma_insert_by_bounded(rs: Seq<(nat, nat)>, x: nat, s: Seq<nat>, bound: nat)
    requires
        x <= bound,
        forall|m: int| 0 <= m < s.len() ==> #[trigger] s[m] <= bound,
    ensures
        forall|m: int|
            0 <= m < insert_by(rs, x, s).len() ==> #[trigger] insert_by(rs, x, s)[m] <= bound,
    decreases s.len(),
{
    if s.len() == 0 {
    } else if rel(rs, s[0], x) == Some(true) {
        assert(forall|m: int|
            0 <= m < s.drop_first().len() ==> #[trigger] s.drop_first()[m] <= bound);
        lemma_insert_by_bounded(rs, x, s.drop_first(), bound);
        assert(forall|m: int|
            1 <= m < insert_by(rs, x, s).len() ==> insert_by(rs, x, s)[m] == insert_by(
                rs,
                x,
                s.drop_first(),
            )[m - 1]);
    } else {
        assert(forall|m: int|
            1 <= m < insert_by(rs, x, s).len() ==> insert_by(rs, x, s)[m] == s[m - 1]);
    }
}

/// Re-ordering keeps every page within the bound.
proof fn lemma_sort_by_bounded(rs: Seq<(nat, nat)>, s: Seq<nat>, bound: nat)
    requires
        forall|m: int| 0 <= m < s.len() ==> #[trigger] s[m] <= bound,
    ensures
        forall|m: int|
            0 <= m < sort_by(rs, s).len() ==> #[trigger] sort_by(rs, s)[m] <= bound,
    decreases s.len(),
{
    if s.len() > 0 {
        assert(forall|m: int|
            0 <= m < s.drop_first().len() ==> #[trigger] s.drop_first()[m] <= bound);
        lemma_sort_by_bounded(rs, s.drop_first(), bound);
        lemma_insert_by_bounded(rs, s[0], sort_by(rs, s.drop_first()), bound);
    }
}

proof fn lemma_sum_middles_mono(ls: Seq<Seq<u8>>, a: int, b: int, fix: bool)
    requires
        0 <= a <= b <= page_lines(ls).len(),
    ensures
        sum_middles(ls, a, fix) <= sum_middles(ls, b, fix),
    decreases b - a,
{
    if a < b {
        lemma_sum_middles_mono(ls, a + 1, b, fix);
    }
}

/// The summed middle pages of the updates already in order.
pub fn part_one(input: &str) -> (r: Option<u32>)
    requires
        input.spec_bytes().len() < usize::MAX,
    ensures
        r == spec_part_one(input.spec_bytes()),
{
    solve(input, false)
}

/// The summed middle pages of the out-of-order updates, re-ordered.
pub fn part_two(input: &str) -> (r: Option<u32>)
    requires
        input.spec_bytes().len() < usize::MAX,
    ensures
        r == spec_part_two(input.spec_bytes()),
{
    solve(input, true)
}

} // verus!
