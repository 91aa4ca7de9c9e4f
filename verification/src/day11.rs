//! Blinking stones: at each blink a zero becomes a one, a stone with an
//! even number of digits splits into its two digit halves, and any other
//! stone is multiplied by 2024.  Counted over twenty-five blinks.

use vstd::prelude::*;

use crate::day07::{num_digits, pow10, count_digits, pow10_exec, lemma_pow10_pos, lemma_pow10_mono};
use crate::parsing::{spec_nums, nums_from, parse_nums, nums_fit};
use vstd::string::StringSliceAdditionalSpecFns;

verus! {

pub open spec fn pow2n(k: nat) -> nat
    decreases k,
{
    if k == 0 {
        1
    } else {
        2 * pow2n((k - 1) as nat)
    }
}

/// The upper digit half of an even-digit stone.
pub open spec fn split_hi(stone: nat) -> nat {
    stone / pow10(num_digits(stone) / 2)
}

/// The lower digit half of an even-digit stone.
pub open spec fn split_lo(stone: nat) -> nat {
    stone % pow10(num_digits(stone) / 2)
}

/// How many stones one stone becomes after `steps` blinks.
pub open spec fn stone_count(stone: nat, steps: nat) -> nat
    decreases steps,
{
    if steps == 0 {
        1
    } else if stone == 0 {
        stone_count(1, (steps - 1) as nat)
    } else if num_digits(stone) % 2 == 0 {
        stone_count(split_hi(stone), (steps - 1) as nat) + stone_count(
            split_lo(stone),
            (steps - 1) as nat,
        )
    } else {
        stone_count(stone * 2024, (steps - 1) as nat)
    }
}

/// Whether every multiplied stone along the way stays a 128-bit value, the
/// machine's working range.
pub open spec fn stones_representable(stone: nat, steps: nat) -> bool
    decreases steps,
{
    steps > 0 ==> {
        if stone == 0 {
            stones_representable(1, (steps - 1) as nat)
        } else if num_digits(stone) % 2 == 0 {
            stones_representable(split_hi(stone), (steps - 1) as nat) && stones_representable(
                split_lo(stone),
                (steps - 1) as nat,
            )
        } else {
            stone * 2024 <= u128::MAX as nat && stones_representable(
                stone * 2024,
                (steps - 1) as nat,
            )
        }
    }
}

/// The stones of all the starting stones together.
pub open spec fn total_count(ns: Seq<nat>, steps: nat) -> nat
    decreases ns.len(),
{
    if ns.len() == 0 {
        0
    } else {
        stone_count(ns[0], steps) + total_count(ns.drop_first(), steps)
    }
}

pub open spec fn all_representable(ns: Seq<nat>, steps: nat) -> bool {
    forall|i: int| 0 <= i < ns.len() ==> stones_representable(#[trigger] ns[i], steps)
}

/// The number of stones after twenty-five blinks, or nothing when the
/// input is malformed, a stone leaves the working range, or the count
/// leaves 64 bits.
pub open spec fn spec_part_one(s: Seq<u8>) -> Option<u64> {
    match spec_nums(s) {
        None => None,
        Some(ns) => if (forall|i: int| 0 <= i < ns.len() ==> #[trigger] ns[i] <= u64::MAX as nat)
            && all_representable(ns, 25) && total_count(ns, 25) <= u64::MAX as nat {
            Some(total_count(ns, 25) as u64)
        } else {
            None
        },
    }
}

/// One stone never becomes more than two to the number of blinks.
proof fn lemma_count_bound(stone: nat, steps: nat)
    ensures
        1 <= stone_count(stone, steps) <= pow2n(steps),
    decreases steps,
{
    if steps > 0 {
        lemma_pow2n_pos(steps);
        assert(pow2n(steps) == 2 * pow2n((steps - 1) as nat));
        if stone == 0 {
            lemma_count_bound(1, (steps - 1) as nat);
            lemma_pow2n_grow((steps - 1) as nat);
            assert(stone_count(stone, steps) == stone_count(1, (steps - 1) as nat));
        } else if num_digits(stone) % 2 == 0 {
            lemma_count_bound(split_hi(stone), (steps - 1) as nat);
            lemma_count_bound(split_lo(stone), (steps - 1) as nat);
        } else {
            lemma_count_bound(stone * 2024, (steps - 1) as nat);
            lemma_pow2n_grow((steps - 1) as nat);
            assert(stone_count(stone, steps) == stone_count(stone * 2024, (steps - 1) as nat));
        }
    }
}

proof fn lemma_pow2n_pos(k: nat)
    ensures
        pow2n(k) >= 1,
    decreases k,
{
    if k > 0 {
        lemma_pow2n_pos((k - 1) as nat);
    }
}

proof fn lemma_pow2n_grow(k: nat)
    ensures
        pow2n(k) <= pow2n(k + 1),
{
    lemma_pow2n_pos(k);
}

/// Count one stone's descendants, or report that a multiplied stone left
/// the working range.
fn count_stones(stone: u128, steps: u8) -> (r: Option<u64>)
    requires
        steps <= 25,
    ensures
        match r {
            Some(c) => {
                &&& stones_representable(stone as nat, steps as nat)
                &&& c as nat == stone_count(stone as nat, steps as nat)
            },
            None => !stones_representable(stone as nat, steps as nat),
        },
    decreases steps,
{
    if steps == 0 {
        return Some(1);
    }
    if stone == 0 {
        return count_stones(1, steps - 1);
    }
    let d = count_digits(stone);
    if d % 2 == 0 {
        let h = match pow10_exec(d / 2) {
            Some(h) => h,
            None => {
                proof {
                    crate::day07::lemma_digits_bound(stone as nat);
                    assert(num_digits(stone as nat) / 2 <= 19);
                    lemma_pow10_mono(num_digits(stone as nat) / 2, 19);
                    assert(pow10(19) <= u128::MAX as nat) by {
                        reveal_with_fuel(pow10, 21);
                    }
                    assert(false);
                }
                0
            },
        };
        proof {
            lemma_pow10_pos(num_digits(stone as nat) / 2);
        }
        let hi = stone / h;
        let lo = stone % h;
        proof {
            assert(hi as nat == split_hi(stone as nat));
            assert(lo as nat == split_lo(stone as nat));
        }
        let c1 = match count_stones(hi, steps - 1) {
            Some(c) => c,
            None => {
                return None;
            },
        };
        let c2 = match count_stones(lo, steps - 1) {
            Some(c) => c,
            None => {
                return None;
            },
        };
        proof {
            lemma_count_bound(hi as nat, (steps - 1) as nat);
            lemma_count_bound(lo as nat, (steps - 1) as nat);
            lemma_pow2n_le_25((steps - 1) as nat);
        }
        Some(c1 + c2)
    } else {
        if stone > u128::MAX / 2024 {
            proof {
                assert(stone as nat * 2024 > u128::MAX as nat) by (nonlinear_arith)
                    requires
                        stone as nat > u128::MAX as nat / 2024,
                ;
            }
            return None;
        }
        proof {
            assert(stone as nat * 2024 <= u128::MAX as nat) by (nonlinear_arith)
                requires
                    stone as nat <= u128::MAX as nat / 2024,
            ;
        }
        count_stones(stone * 2024, steps - 1)
    }
}

proof fn lemma_pow2n_le_25(k: nat)
    requires
        k <= 25,
    ensures
        pow2n(k) <= 0x2000000,
    decreases 25 - k,
{
    if k < 25 {
        lemma_pow2n_le_25(k + 1);
        lemma_pow2n_pos(k);
    } else {
        assert(pow2n(25) == 0x2000000) by {
            reveal_with_fuel(pow2n, 26);
        }
    }
}

/// There are never more numbers than bytes.
proof fn lemma_nums_count(s: Seq<u8>, k: int)
    requires
        0 <= k <= s.len(),
    ensures
        match nums_from(s, k) {
            Some(ns) => ns.len() <= s.len() - k,
            None => true,
        },
    decreases s.len() - k,
{
    if k < s.len() {
        if crate::parsing::is_space(s[k]) {
            lemma_nums_count(s, k + 1);
        } else if crate::parsing::is_digit(s[k]) {
            crate::parsing::lemma_digits_end_bounds(s, k);
            lemma_nums_count(s, crate::parsing::digits_end(s, k));
        }
    }
}

/// The number of stones after twenty-five blinks.
pub fn part_one(input: &str) -> (r: Option<u64>)
    requires
        input.spec_bytes().len() < 0x40000000,
    ensures
        r == spec_part_one(input.spec_bytes()),
{
    let ghost s = input.spec_bytes();
    let bytes = input.as_bytes_vec();
    let stones = match parse_nums(bytes.as_slice()) {
        None => {
            proof {
                if spec_nums(s) is Some {
                    let ns = spec_nums(s).unwrap();
                    assert(!(forall|i: int|
                        0 <= i < ns.len() ==> #[trigger] ns[i] <= u64::MAX as nat)) by {
                        assert(!nums_fit(s, u64::MAX as nat));
                    }
                }
            }
            return None;
        },
        Some(v) => v,
    };
    let ghost ns = spec_nums(s).unwrap();
    proof {
        lemma_nums_count(s, 0);
    }
    let n = stones.len();
    let mut total: u64 = 0;
    let mut i: usize = 0;
    while i < n
        invariant
            s == input.spec_bytes(),
            Some(stones@.map_values(|x: u64| x as nat)) == spec_nums(s),
            ns == spec_nums(s).unwrap(),
            nums_fit(s, u64::MAX as nat),
            n == stones@.len(),
            n < 0x40000000,
            i <= n,
            total_count(ns.take(i as int), 25) == total as nat,
            total <= (i as nat) * 0x2000000,
            forall|j: int| 0 <= j < i ==> stones_representable(#[trigger] ns[j], 25),
        decreases n - i,
    {
        let stone = stones[i];
        let c = match count_stones(stone as u128, 25) {
            None => {
                proof {
                    assert(ns[i as int] == stones@.map_values(|x: u64| x as nat)[i as int]);
                    assert(!stones_representable(ns[i as int], 25));
                }
                return None;
            },
            Some(c) => c,
        };
        proof {
            assert(ns[i as int] == stones@.map_values(|x: u64| x as nat)[i as int]);
            lemma_count_bound(ns[i as int], 25);
            lemma_pow2n_le_25(25);
            lemma_total_take(ns, i as int, 25);
            assert((i as nat + 1) * 0x2000000 == (i as nat) * 0x2000000 + 0x2000000)
                by (nonlinear_arith);
            assert((i as nat) * 0x2000000 <= 0x40000000 * 0x2000000) by (nonlinear_arith)
                requires
                    i as nat <= 0x40000000,
            ;
        }
        total = total + c;
        i += 1;
    }
    proof {
        assert(ns.take(n as int) =~= ns);
        assert((n as nat) * 0x2000000 <= 0x40000000 * 0x2000000) by (nonlinear_arith)
            requires
                n as nat <= 0x40000000,
        ;
    }
    Some(total)
}

/// One more stone folds its count into the total.
proof fn lemma_total_take(ns: Seq<nat>, i: int, steps: nat)
    requires
        0 <= i < ns.len(),
    ensures
        total_count(ns.take(i + 1), steps) == total_count(ns.take(i), steps) + stone_count(
            ns[i],
            steps,
        ),
    decreases i,
{
    if i == 0 {
        assert(ns.take(1).drop_first() =~= Seq::<nat>::empty());
        assert(ns.take(1)[0] == ns[0]);
        assert(total_count(Seq::<nat>::empty(), steps) == 0);
        assert(total_count(ns.take(0), steps) == 0);
    } else {
        lemma_total_take(ns.drop_first(), i - 1, steps);
        assert(ns.take(i + 1).drop_first() =~= ns.drop_first().take(i));
        assert(ns.take(i).drop_first() =~= ns.drop_first().take(i - 1));
        assert(ns.take(i + 1)[0] == ns[0]);
        assert(ns.take(i)[0] == ns[0]);
        assert(ns.drop_first()[i - 1] == ns[i]);
    }
}

/// The second half of this puzzle has no computed answer.
pub fn part_two(input: &str) -> (r: Option<u64>)
    ensures
        r is None,
{
    let _ = input;
    None
}

} // verus!
