//! Corrupted memory scanning: the first scanner picks out well-formed
//! `mul(a,b)` instructions one byte at a time and sums the products; the
//! second also honours `do()` and `don't()` toggles, discarding products
//! while disabled.  Both consume bytes exactly as a one-pass scanner does:
//! a mismatched byte is swallowed with the attempt it ended.

use vstd::prelude::*;

use crate::parsing::{digits_end, digits_val, lemma_digits_end_bounds, is_digit};
use vstd::string::StringSliceAdditionalSpecFns;

verus! {

// The patterns the scanners try to eat, by number: `mul(`, `ul(`, `on't()`
// and `do()`.
pub open spec fn pat_len(p: int) -> int {
    if p == 0 {
        4
    } else if p == 1 {
        3
    } else if p == 2 {
        6
    } else {
        4
    }
}

pub open spec fn pat_at(p: int, i: int) -> u8 {
    if p == 0 {
        if i == 0 {
            109
        } else if i == 1 {
            117
        } else if i == 2 {
            108
        } else {
            40
        }
    } else if p == 1 {
        if i == 0 {
            117
        } else if i == 1 {
            108
        } else {
            40
        }
    } else if p == 2 {
        if i == 0 {
            111
        } else if i == 1 {
            110
        } else if i == 2 {
            39
        } else if i == 3 {
            116
        } else if i == 4 {
            40
        } else {
            41
        }
    } else {
        if i == 0 {
            100
        } else if i == 1 {
            111
        } else if i == 2 {
            40
        } else {
            41
        }
    }
}

/// Eat pattern `p` from offset `i` at position `pos`: 1 means it matched
/// (the pattern's bytes are consumed), 0 means a byte mismatched (consumed
/// through that byte), 2 means the input ran out first.  The second
/// component is the position after the consumed bytes.
pub open spec fn eat_pat(s: Seq<u8>, pos: int, p: int, i: int) -> (int, int)
    decreases pat_len(p) - i,
{
    if i >= pat_len(p) {
        (1, pos)
    } else if pos >= s.len() {
        (2, s.len() as int)
    } else if s[pos] == pat_at(p, i) {
        eat_pat(s, pos + 1, p, i + 1)
    } else {
        (0, pos + 1)
    }
}

/// Where eating lands: never before `pos`, never past the end, and strictly
/// past `pos` unless the input was already spent.
pub proof fn lemma_eat_pat_bounds(s: Seq<u8>, pos: int, p: int, i: int)
    requires
        0 <= pos <= s.len(),
        0 <= i,
    ensures
        ({
            let (m, q) = eat_pat(s, pos, p, i);
            &&& pos <= q <= s.len()
            &&& (m != 1 || i < pat_len(p)) && pos < s.len() ==> q > pos
            &&& (m == 1 && i >= pat_len(p) ==> q == pos)
        }),
    decreases pat_len(p) - i,
{
    if i < pat_len(p) && pos < s.len() && s[pos] == pat_at(p, i) {
        lemma_eat_pat_bounds(s, pos + 1, p, i + 1);
    }
}

// --- the plain `mul(a,b)` scanner ---

/// The next product instruction from `pos` on: its two numbers and the
/// position just after its closing parenthesis, or nothing when the input
/// ends first.  A failed attempt resumes right after the byte that ended
/// it.
pub open spec fn scan_from(s: Seq<u8>, pos: int) -> Option<(nat, nat, int)>
    decreases s.len() - pos,
    via scan_from_decreases
{
    if pos < 0 || pos > s.len() {
        None
    } else {
    let (m, p1) = eat_pat(s, pos, 0, 0);
    if m == 2 {
        None
    } else if m == 0 {
        scan_from(s, p1)
    } else {
        let e1 = digits_end(s, p1);
        if e1 == p1 {
            scan_from(s, p1)
        } else {
            let a = digits_val(s, p1, e1);
            if e1 >= s.len() {
                None
            } else if s[e1] != 44 {
                scan_from(s, e1 + 1)
            } else {
                let e2 = digits_end(s, e1 + 1);
                if e2 == e1 + 1 {
                    scan_from(s, e1 + 1)
                } else {
                    let b = digits_val(s, e1 + 1, e2);
                    if e2 >= s.len() {
                        None
                    } else if s[e2] != 41 {
                        scan_from(s, e2 + 1)
                    } else {
                        Some((a, b, e2 + 1))
                    }
                }
            }
        }
    }
    }
}

#[via_fn]
proof fn scan_from_decreases(s: Seq<u8>, pos: int) {
    if 0 <= pos <= s.len() {
        scan_aux_bounds(s, pos);
    }
}

proof fn scan_aux_bounds(s: Seq<u8>, pos: int)
    requires
        0 <= pos <= s.len(),
    ensures
        ({
            let (m, p1) = eat_pat(s, pos, 0, 0);
            &&& pos <= p1 <= s.len()
            &&& (m != 2 && pos < s.len() ==> p1 > pos)
            &&& (m == 1 ==> p1 == pos + 4)
            &&& p1 <= digits_end(s, p1) <= s.len()
            &&& (digits_end(s, p1) < s.len() ==> digits_end(s, p1) + 1 <= digits_end(
                s,
                digits_end(s, p1) + 1,
            ) <= s.len())
        }),
{
    lemma_eat_pat_bounds(s, pos, 0, 0);
    let (m, p1) = eat_pat(s, pos, 0, 0);
    lemma_digits_end_bounds(s, p1);
    let e1 = digits_end(s, p1);
    if e1 < s.len() {
        lemma_digits_end_bounds(s, e1 + 1);
    }
    if m == 1 {
        lemma_eat_match_len(s, pos, 0, 0);
    }
}

/// A full match consumes exactly the pattern's remaining length.
proof fn lemma_eat_match_len(s: Seq<u8>, pos: int, p: int, i: int)
    requires
        0 <= pos <= s.len(),
        0 <= i <= pat_len(p),
        eat_pat(s, pos, p, i).0 == 1,
    ensures
        eat_pat(s, pos, p, i).1 == pos + pat_len(p) - i,
    decreases pat_len(p) - i,
{
    if i < pat_len(p) && pos < s.len() && s[pos] == pat_at(p, i) {
        lemma_eat_match_len(s, pos + 1, p, i + 1);
    }
}

/// Whether every number the scanner reads, and every product it forms, fits
/// 32 bits; a failed attempt still reads its numbers.
pub open spec fn scan_ok(s: Seq<u8>, pos: int) -> bool
    decreases s.len() - pos,
    via scan_ok_decreases
{
    if pos < 0 || pos > s.len() {
        true
    } else {
    let (m, p1) = eat_pat(s, pos, 0, 0);
    if m == 2 {
        true
    } else if m == 0 {
        scan_ok(s, p1)
    } else {
        let e1 = digits_end(s, p1);
        if e1 == p1 {
            scan_ok(s, p1)
        } else {
            let a = digits_val(s, p1, e1);
            if a > u32::MAX as nat {
                false
            } else if e1 >= s.len() {
                true
            } else if s[e1] != 44 {
                scan_ok(s, e1 + 1)
            } else {
                let e2 = digits_end(s, e1 + 1);
                if e2 == e1 + 1 {
                    scan_ok(s, e1 + 1)
                } else {
                    let b = digits_val(s, e1 + 1, e2);
                    if b > u32::MAX as nat || a * b > u32::MAX as nat {
                        false
                    } else if e2 >= s.len() {
                        true
                    } else if s[e2] != 41 {
                        scan_ok(s, e2 + 1)
                    } else {
                        scan_ok(s, e2 + 1)
                    }
                }
            }
        }
    }
    }
}

#[via_fn]
proof fn scan_ok_decreases(s: Seq<u8>, pos: int) {
    if 0 <= pos <= s.len() {
        scan_aux_bounds(s, pos);
    }
}

/// The sum of all products the scanner yields from `pos` on.
pub open spec fn scan_total(s: Seq<u8>, pos: int) -> nat
    decreases s.len() - pos,
    via scan_total_decreases
{
    match scan_from(s, pos) {
        None => 0,
        Some((a, b, end)) => a * b + scan_total(s, end),
    }
}

#[via_fn]
proof fn scan_total_decreases(s: Seq<u8>, pos: int) {
    lemma_scan_from_bounds(s, pos);
}

/// A yielded product always ends strictly past where it began.
pub proof fn lemma_scan_from_bounds(s: Seq<u8>, pos: int)
    ensures
        scan_from(s, pos) is Some ==> pos < scan_from(s, pos).unwrap().2 <= s.len(),
    decreases s.len() - pos,
{
    if 0 <= pos <= s.len() {
        scan_aux_bounds(s, pos);
        let (m, p1) = eat_pat(s, pos, 0, 0);
        if m == 0 {
            lemma_scan_from_bounds(s, p1);
            assert(scan_from(s, pos) == scan_from(s, p1));
        } else if m != 2 {
            let e1 = digits_end(s, p1);
            if e1 == p1 {
                lemma_scan_from_bounds(s, p1);
                assert(scan_from(s, pos) == scan_from(s, p1));
            } else if e1 < s.len() {
                if s[e1] != 44 {
                    lemma_scan_from_bounds(s, e1 + 1);
                    assert(scan_from(s, pos) == scan_from(s, e1 + 1));
                } else {
                    let e2 = digits_end(s, e1 + 1);
                    if e2 == e1 + 1 {
                        lemma_scan_from_bounds(s, e1 + 1);
                        assert(scan_from(s, pos) == scan_from(s, e1 + 1));
                    } else if e2 < s.len() {
                        if s[e2] != 41 {
                            lemma_scan_from_bounds(s, e2 + 1);
                            assert(scan_from(s, pos) == scan_from(s, e2 + 1));
                        } else {
                            assert(scan_from(s, pos) == Some(
                                (digits_val(s, p1, e1), digits_val(s, e1 + 1, e2), e2 + 1),
                            ));
                            assert(pos < e2 + 1 <= s.len());
                        }
                    }
                }
            }
        }
    }
}

/// The summed products of every `mul(a,b)` instruction, or nothing when a
/// number or product leaves 32 bits.
pub open spec fn spec_part_one(s: Seq<u8>) -> Option<u32> {
    if scan_ok(s, 0) && scan_total(s, 0) <= u32::MAX as nat {
        Some(scan_total(s, 0) as u32)
    } else {
        None
    }
}

/// Read a run of digits; reports the run's end, its value when it fits, and
/// whether it fits 32 bits.
fn read_number(s: &[u8], pos: usize) -> (r: (usize, u32, bool))
    requires
        pos <= s@.len(),
    ensures
        r.0 == digits_end(s@, pos as int),
        r.2 ==> r.1 as nat == digits_val(s@, pos as int, digits_end(s@, pos as int)),
        r.2 == (digits_val(s@, pos as int, digits_end(s@, pos as int)) <= u32::MAX as nat),
{
    proof {
        lemma_digits_end_bounds(s@, pos as int);
    }
    let n = s.len();
    let mut e = pos;
    let mut acc: u32 = 0;
    let mut ok = true;
    while e < n && 48 <= s[e] && s[e] <= 57
        invariant
            n == s@.len(),
            pos <= e <= n,
            digits_end(s@, pos as int) == digits_end(s@, e as int),
            ok ==> acc as nat == digits_val(s@, pos as int, e as int),
            !ok ==> digits_val(s@, pos as int, e as int) > u32::MAX as nat,
            forall|m: int| pos <= m < e ==> is_digit(s@[m]),
        decreases n - e,
    {
        let d = (s[e] - 48) as u32;
        if ok {
            if acc <= (u32::MAX - d) / 10 {
                proof {
                    assert(acc * 10 + d <= u32::MAX) by (nonlinear_arith)
                        requires
                            acc <= (u32::MAX - d) / 10,
                            d <= 9,
                    ;
                }
                acc = acc * 10 + d;
            } else {
                proof {
                    assert(acc * 10 + d > u32::MAX) by (nonlinear_arith)
                        requires
                            acc > (u32::MAX - d) / 10,
                            d <= 9,
                    ;
                }
                ok = false;
            }
        } else {
            proof {
                assert(digits_val(s@, pos as int, e + 1) >= digits_val(s@, pos as int, e as int)
                    * 10) by (nonlinear_arith)
                    requires
                        digits_val(s@, pos as int, e + 1) == digits_val(
                            s@,
                            pos as int,
                            e as int,
                        ) * 10 + (s@[e as int] - 48) as nat,
                ;
            }
        }
        e += 1;
    }
    (e, acc, ok)
}

fn pat_length(p: u8) -> (r: usize)
    ensures
        r as int == pat_len(p as int),
{
    if p == 0 {
        4
    } else if p == 1 {
        3
    } else if p == 2 {
        6
    } else {
        4
    }
}

fn pat_byte(p: u8, i: usize) -> (r: u8)
    ensures
        r == pat_at(p as int, i as int),
{
    if p == 0 {
        if i == 0 {
            109
        } else if i == 1 {
            117
        } else if i == 2 {
            108
        } else {
            40
        }
    } else if p == 1 {
        if i == 0 {
            117
        } else if i == 1 {
            108
        } else {
            40
        }
    } else if p == 2 {
        if i == 0 {
            111
        } else if i == 1 {
            110
        } else if i == 2 {
            39
        } else if i == 3 {
            116
        } else if i == 4 {
            40
        } else {
            41
        }
    } else {
        if i == 0 {
            100
        } else if i == 1 {
            111
        } else if i == 2 {
            40
        } else {
            41
        }
    }
}

/// Eat pattern `p` at `pos` the way the scanner does.
fn eat(s: &[u8], pos: usize, p: u8) -> (r: (u8, usize))
    requires
        pos <= s@.len(),
    ensures
        (r.0 as int, r.1 as int) == eat_pat(s@, pos as int, p as int, 0),
        pos <= r.1 <= s@.len(),
{
    proof {
        lemma_eat_pat_bounds(s@, pos as int, p as int, 0);
    }
    let n = s.len();
    let plen = pat_length(p);
    let mut i: usize = 0;
    let mut q = pos;
    loop
        invariant
            n == s@.len(),
            pos <= q <= n,
            0 <= i,
            eat_pat(s@, pos as int, p as int, 0) == eat_pat(s@, q as int, p as int, i as int),
            plen as int == pat_len(p as int),
        ensures
            i >= plen,
            q <= n,
            eat_pat(s@, pos as int, p as int, 0) == eat_pat(s@, q as int, p as int, i as int),
        decreases plen - i,
    {
        if i >= plen {
            break ;
        }
        if q >= n {
            proof {
                assert(eat_pat(s@, q as int, p as int, i as int) == (2int, n as int));
            }
            return (2, n);
        }
        let c = s[q];
        if c == pat_byte(p, i) {
            q += 1;
            i += 1;
        } else {
            proof {
                assert(eat_pat(s@, q as int, p as int, i as int) == (0int, q + 1));
            }
            return (0, q + 1);
        }
    }
    proof {
        assert(eat_pat(s@, q as int, p as int, i as int) == (1int, q as int));
    }
    (1, q)
}

/// What one scanning attempt produced.
pub enum MulScan {
    /// A product instruction `mul(a, b)`.
    Hit(u32, u32),
    /// The input ran out.
    Done,
    /// A number or product left 32 bits, where the original scanner fails.
    Bad,
}

/// A one-pass scanner for `mul(a,b)` instructions.
pub struct MemoryScanner {
    pub bytes: Vec<u8>,
    pub pos: usize,
}

impl MemoryScanner {
    /// Start a scan at the beginning of the input.
    pub fn new(bytes: Vec<u8>) -> (r: MemoryScanner)
        ensures
            r.bytes@ == bytes@,
            r.pos == 0,
    {
        MemoryScanner { bytes, pos: 0 }
    }

    /// Scan up to the next full product instruction.
    pub fn next_mul(&mut self) -> (r: MulScan)
        requires
            old(self).pos <= old(self).bytes@.len(),
        ensures
            final(self).bytes@ == old(self).bytes@,
            final(self).pos <= final(self).bytes@.len(),
            match r {
                MulScan::Hit(a, b) => {
                    &&& scan_from(old(self).bytes@, old(self).pos as int) == Some(
                        (a as nat, b as nat, final(self).pos as int),
                    )
                    &&& a as nat * b as nat <= u32::MAX as nat
                    &&& old(self).pos < final(self).pos
                    &&& (scan_ok(old(self).bytes@, old(self).pos as int) <==> scan_ok(
                        old(self).bytes@,
                        final(self).pos as int,
                    ))
                },
                MulScan::Done => {
                    &&& scan_from(old(self).bytes@, old(self).pos as int) is None
                    &&& scan_ok(old(self).bytes@, old(self).pos as int)
                },
                MulScan::Bad => !scan_ok(old(self).bytes@, old(self).pos as int),
            },
    {
        let ghost s = self.bytes@;
        let ghost pos0 = self.pos as int;
        let n = self.bytes.len();
        loop
            invariant
                s == old(self).bytes@,
                pos0 == old(self).pos as int,
                s == self.bytes@,
                n == s.len(),
                self.pos <= n,
                pos0 <= self.pos as int,
                scan_from(s, pos0) == scan_from(s, self.pos as int),
                scan_ok(s, pos0) <==> scan_ok(s, self.pos as int),
            decreases n - self.pos,
        {
            proof {
                scan_aux_bounds(s, self.pos as int);
            }
            let p = self.pos;
            let (m, p1) = eat(self.bytes.as_slice(), p, 0);
            if m == 2 {
                self.pos = p1;
                return MulScan::Done;
            }
            if m == 0 {
                self.pos = p1;
                continue ;
            }
            // `mul(` matched: the first number
            let (e1, a, ok_a) = read_number(self.bytes.as_slice(), p1);
            if e1 == p1 {
                self.pos = p1;
                continue ;
            }
            if !ok_a {
                return MulScan::Bad;
            }
            if e1 >= n {
                self.pos = n;
                return MulScan::Done;
            }
            if self.bytes[e1] != 44 {
                self.pos = e1 + 1;
                continue ;
            }
            // the comma matched: the second number
            let (e2, b, ok_b) = read_number(self.bytes.as_slice(), e1 + 1);
            if e2 == e1 + 1 {
                self.pos = e1 + 1;
                continue ;
            }
            if !ok_b {
                return MulScan::Bad;
            }
            proof {
                assert((a as nat) * (b as nat) < 0x10000000000000000) by (nonlinear_arith)
                    requires
                        a <= u32::MAX,
                        b <= u32::MAX,
                ;
            }
            let prod = (a as u64) * (b as u64);
            if prod > u32::MAX as u64 {
                return MulScan::Bad;
            }
            if e2 >= n {
                self.pos = n;
                return MulScan::Done;
            }
            if self.bytes[e2] != 41 {
                self.pos = e2 + 1;
                continue ;
            }
            self.pos = e2 + 1;
            return MulScan::Hit(a, b);
        }
    }
}

/// The sum of the products of every `mul(a,b)` instruction.
pub fn part_one(input: &str) -> (r: Option<u32>)
    ensures
        r == spec_part_one(input.spec_bytes()),
{
    let ghost s = input.spec_bytes();
    let bytes = input.as_bytes_vec();
    let mut scanner = MemoryScanner::new(bytes);
    let mut total: u64 = 0;
    loop
        invariant
            s == input.spec_bytes(),
            scanner.bytes@ == s,
            scanner.pos <= s.len(),
            scan_total(s, 0) == total as nat + scan_total(s, scanner.pos as int),
            total <= u32::MAX as u64,
            scan_ok(s, 0) <==> scan_ok(s, scanner.pos as int),
        decreases s.len() - scanner.pos,
    {
        let ghost p_before = scanner.pos as int;
        match scanner.next_mul() {
            MulScan::Done => {
                return Some(total as u32);
            },
            MulScan::Bad => {
                return None;
            },
            MulScan::Hit(a, b) => {
                proof {
                    lemma_scan_from_bounds(s, p_before);
                }
                let prod = (a as u64) * (b as u64);
                total = total + prod;
                if total > u32::MAX as u64 {
                    return None;
                }
            },
        }
    }
}

// --- the toggling scanner ---

/// One step of the toggling machine from state `st` (0 scanning, 1
/// disabled, 2 reading the first number, 3 reading the second) with first
/// number `a`, at `pos`: the new state, first number, position, and any
/// product pair the step yields.  While scanning, an `m` tries `ul(` and a
/// `d` tries `on't()`; while disabled only `do()` re-enables; a number run
/// ends the first number at a comma and the second at a closing parenthesis
/// or the end of the input.
pub open spec fn spec_step2(s: Seq<u8>, st: int, a: nat, pos: int) -> (
    int,
    nat,
    int,
    Option<(nat, nat)>,
) {
    if st == 0 {
        if pos < 0 || pos >= s.len() {
            (0, a, s.len() as int, None)
        } else if s[pos] == 109 {
            let (m, p) = eat_pat(s, pos + 1, 1, 0);
            if m == 1 {
                (2, a, p, None)
            } else {
                (0, a, p, None)
            }
        } else if s[pos] == 100 {
            let (m, p) = eat_pat(s, pos + 1, 2, 0);
            if m == 1 {
                (1, a, p, None)
            } else {
                (0, a, p, None)
            }
        } else {
            (0, a, pos + 1, None)
        }
    } else if st == 1 {
        let (m, p) = eat_pat(s, pos, 3, 0);
        if m == 1 {
            (0, a, p, None)
        } else {
            (1, a, p, None)
        }
    } else if st == 2 {
        let e = digits_end(s, pos);
        let v = digits_val(s, pos, e);
        if e >= s.len() {
            (0, a, s.len() as int, None)
        } else if s[e] == 44 {
            (3, v, e + 1, None)
        } else {
            (0, a, e + 1, None)
        }
    } else {
        let e = digits_end(s, pos);
        let v = digits_val(s, pos, e);
        if e >= s.len() {
            (0, a, s.len() as int, Some((a, v)))
        } else if s[e] == 41 {
            (0, a, e + 1, Some((a, v)))
        } else {
            (0, a, e + 1, None)
        }
    }
}

/// Whether the numbers this step reads fit 32 bits, as the original
/// machine's accumulator demands.
pub open spec fn ok_step2(s: Seq<u8>, st: int, pos: int) -> bool {
    if st == 2 || st == 3 {
        digits_val(s, pos, digits_end(s, pos)) <= u32::MAX as nat
    } else {
        true
    }
}

/// A step at a live position always advances.
pub proof fn lemma_step2_bounds(s: Seq<u8>, st: int, a: nat, pos: int)
    requires
        0 <= pos < s.len(),
    ensures
        ({
            let (st2, a2, p2, out) = spec_step2(s, st, a, pos);
            pos < p2 <= s.len()
        }),
{
    if st == 0 {
        if s[pos] == 109 {
            lemma_eat_pat_bounds(s, pos + 1, 1, 0);
        } else if s[pos] == 100 {
            lemma_eat_pat_bounds(s, pos + 1, 2, 0);
        }
    } else if st == 1 {
        lemma_eat_pat_bounds(s, pos, 3, 0);
    } else {
        lemma_digits_end_bounds(s, pos);
    }
}

/// Whether every number read from `pos` on, and every product the machine
/// yields, fits 32 bits.
pub open spec fn ok2_from(s: Seq<u8>, st: int, a: nat, pos: int) -> bool
    decreases s.len() - pos,
    via ok2_from_decreases
{
    if pos < 0 || pos >= s.len() {
        true
    } else {
        let (st2, a2, p2, out) = spec_step2(s, st, a, pos);
        &&& ok_step2(s, st, pos)
        &&& (match out {
            Some((x, y)) => x * y <= u32::MAX as nat,
            None => true,
        })
        &&& ok2_from(s, st2, a2, p2)
    }
}

#[via_fn]
proof fn ok2_from_decreases(s: Seq<u8>, st: int, a: nat, pos: int) {
    if 0 <= pos < s.len() {
        lemma_step2_bounds(s, st, a, pos);
    }
}

/// The sum of the products the machine yields from `pos` on.
pub open spec fn total2_from(s: Seq<u8>, st: int, a: nat, pos: int) -> nat
    decreases s.len() - pos,
    via total2_from_decreases
{
    if pos < 0 || pos >= s.len() {
        0
    } else {
        let (st2, a2, p2, out) = spec_step2(s, st, a, pos);
        (match out {
            Some((x, y)) => x * y,
            None => 0,
        }) + total2_from(s, st2, a2, p2)
    }
}

#[via_fn]
proof fn total2_from_decreases(s: Seq<u8>, st: int, a: nat, pos: int) {
    if 0 <= pos < s.len() {
        lemma_step2_bounds(s, st, a, pos);
    }
}

/// The summed products of the enabled `mul(a,b)` instructions, or nothing
/// when a number or product leaves 32 bits.
pub open spec fn spec_part_two(s: Seq<u8>) -> Option<u32> {
    if ok2_from(s, 0, 0, 0) && total2_from(s, 0, 0, 0) <= u32::MAX as nat {
        Some(total2_from(s, 0, 0, 0) as u32)
    } else {
        None
    }
}

/// The toggling machine: scanning for instructions, disabled, or partway
/// through a product's numbers.
pub struct StateMachine2 {
    pub state: u8,
    pub a: u32,
}

impl StateMachine2 {
    /// A machine ready to scan.
    pub fn new() -> (r: StateMachine2)
        ensures
            r.state == 0,
            r.a == 0,
    {
        StateMachine2 { state: 0, a: 0 }
    }

    /// Drive the machine one step from `*pos`; the step's product pair, if
    /// any, and whether its numbers fit 32 bits.
    pub fn step(&mut self, bytes: &Vec<u8>, pos: &mut usize) -> (r: (Option<(u32, u32)>, bool))
        requires
            old(self).state <= 3,
            *old(pos) < bytes@.len(),
        ensures
            ({
                let (st2, a2, p2, out) = spec_step2(
                    bytes@,
                    old(self).state as int,
                    old(self).a as nat,
                    *old(pos) as int,
                );
                &&& final(self).state <= 3
                &&& r.1 == ok_step2(bytes@, old(self).state as int, *old(pos) as int)
                &&& (r.1 ==> {
                    &&& final(self).state as int == st2
                    &&& final(self).a as nat == a2
                    &&& *final(pos) as int == p2
                    &&& (match (r.0, out) {
                        (Some((x, y)), Some((xx, yy))) => x as nat == xx && y as nat == yy,
                        (None, None) => true,
                        _ => false,
                    })
                })
            }),
    {
        let n = bytes.len();
        let p = *pos;
        if self.state == 0 {
            let c = bytes[p];
            if c == 109 {
                let (m, q) = eat(bytes.as_slice(), p + 1, 1);
                if m == 1 {
                    self.state = 2;
                } else {
                    self.state = 0;
                }
                *pos = q;
                (None, true)
            } else if c == 100 {
                let (m, q) = eat(bytes.as_slice(), p + 1, 2);
                if m == 1 {
                    self.state = 1;
                } else {
                    self.state = 0;
                }
                *pos = q;
                (None, true)
            } else {
                *pos = p + 1;
                (None, true)
            }
        } else if self.state == 1 {
            let (m, q) = eat(bytes.as_slice(), p, 3);
            if m == 1 {
                self.state = 0;
            } else {
                self.state = 1;
            }
            *pos = q;
            (None, true)
        } else if self.state == 2 {
            let (e, v, ok) = read_number(bytes.as_slice(), p);
            if !ok {
                return (None, false);
            }
            if e >= n {
                self.state = 0;
                *pos = n;
                (None, true)
            } else if bytes[e] == 44 {
                self.state = 3;
                self.a = v;
                *pos = e + 1;
                (None, true)
            } else {
                self.state = 0;
                *pos = e + 1;
                (None, true)
            }
        } else {
            let (e, v, ok) = read_number(bytes.as_slice(), p);
            if !ok {
                return (None, false);
            }
            let a = self.a;
            if e >= n {
                self.state = 0;
                *pos = n;
                (Some((a, v)), true)
            } else if bytes[e] == 41 {
                self.state = 0;
                *pos = e + 1;
                (Some((a, v)), true)
            } else {
                self.state = 0;
                *pos = e + 1;
                (None, true)
            }
        }
    }
}

/// The summed products of the enabled `mul(a,b)` instructions.
pub fn part_two(input: &str) -> (r: Option<u32>)
    ensures
        r == spec_part_two(input.spec_bytes()),
{
    let ghost s = input.spec_bytes();
    let bytes = input.as_bytes_vec();
    let n = bytes.len();
    let mut machine = StateMachine2::new();
    let mut pos: usize = 0;
    let mut total: u64 = 0;
    while pos < n
        invariant
            s == input.spec_bytes(),
            bytes@ == s,
            n == s.len(),
            pos <= n,
            machine.state <= 3,
            total2_from(s, 0, 0, 0) == total as nat + total2_from(
                s,
                machine.state as int,
                machine.a as nat,
                pos as int,
            ),
            total <= u32::MAX as u64,
            ok2_from(s, 0, 0, 0) <==> ok2_from(
                s,
                machine.state as int,
                machine.a as nat,
                pos as int,
            ),
        decreases n - pos,
    {
        let ghost st_before = machine.state as int;
        let ghost a_before = machine.a as nat;
        let ghost p_before = pos as int;
        proof {
            lemma_step2_bounds(s, st_before, a_before, p_before);
        }
        let (out, ok) = machine.step(&bytes, &mut pos);
        if !ok {
            return None;
        }
        match out {
            Some((x, y)) => {
                proof {
                    assert((x as nat) * (y as nat) < 0x10000000000000000) by (nonlinear_arith)
                        requires
                            x <= u32::MAX,
                            y <= u32::MAX,
                    ;
                }
                let prod = (x as u64) * (y as u64);
                if prod > u32::MAX as u64 {
                    return None;
                }
                total = total + prod;
                if total > u32::MAX as u64 {
                    return None;
                }
            },
            None => {},
        }
    }
    Some(total as u32)
}


} // verus!
