//! Serial generation for courses: compact numeric identifiers unique within
//! a department, drawn at random from progressively widening digit ranges.
//!
//! A serial is first sought among three-digit numbers; a range is abandoned
//! for the next wider one when it is already saturated, or when ten random
//! draws in a row all collide with assigned serials. Ranges widen up to
//! eighteen digits, the widest whose bounds a signed 64-bit serial can hold;
//! past that the generator reports a storage error instead of growing without
//! bound.

use vstd::prelude::*;
use crate::store::CourseRow;
use crate::types::StoreError;

verus! {

/// Draws attempted per digit range before widening.
pub const DRAWS_PER_RANGE: u32 = 10;

/// Widest digit range the generator will try.
pub const MAX_DIGITS: u32 = 18;

/// Ten to the `n`th power.
pub open spec fn pow10(n: nat) -> int
    decreases n,
{
    if n == 0 {
        1
    } else {
        10 * pow10((n - 1) as nat)
    }
}

/// Smallest value with `digits` digits.
pub open spec fn range_lower(digits: nat) -> int {
    pow10((digits - 1) as nat)
}

/// Largest value with `digits` digits.
pub open spec fn range_upper(digits: nat) -> int {
    pow10(digits) - 1
}

/// The serial a raw draw maps to within the `digits`-wide range.
pub open spec fn candidate(draw: u64, digits: nat) -> int {
    range_lower(digits) + (draw as int) % (range_upper(digits) - range_lower(digits) + 1)
}

/// Some course of this department carries this serial value.
pub open spec fn serial_taken(cs: Seq<CourseRow>, department_id: u64, n: int) -> bool {
    exists|i: int|
        0 <= i < cs.len() && (#[trigger] cs[i]).department_id == department_id && cs[i].serial == n
}

/// How many courses of this department have serials within `[lo, hi]`.
pub open spec fn count_in_range(cs: Seq<CourseRow>, department_id: u64, lo: int, hi: int) -> int
    decreases cs.len(),
{
    if cs.len() == 0 {
        0
    } else {
        count_in_range(cs.drop_last(), department_id, lo, hi) + if cs.last().department_id
            == department_id && lo <= cs.last().serial <= hi {
            1int
        } else {
            0int
        }
    }
}

/// The first untaken candidate among draws `k..10` of the `digits`-wide
/// range, if any. Draw `k` of range `digits` is entry `(digits - 3) * 10 + k`
/// of the draw sequence.
pub open spec fn first_free(
    cs: Seq<CourseRow>,
    department_id: u64,
    draws: Seq<u64>,
    digits: nat,
    k: nat,
) -> Option<int>
    decreases 10 - k,
{
    if k >= 10 {
        None
    } else {
        let c = candidate(draws[(digits - 3) * 10 + k], digits);
        if !serial_taken(cs, department_id, c) {
            Some(c)
        } else {
            first_free(cs, department_id, draws, digits, (k + 1) as nat)
        }
    }
}

/// The serial the generator picks starting from the `digits`-wide range:
/// the first free draw of the first unsaturated range, or `None` once every
/// range up to eighteen digits has been given up on.
pub open spec fn pick_from(
    cs: Seq<CourseRow>,
    department_id: u64,
    draws: Seq<u64>,
    digits: nat,
) -> Option<int>
    decreases 19 - digits,
{
    if digits > 18 {
        None
    } else {
        let lo = range_lower(digits);
        let hi = range_upper(digits);
        if count_in_range(cs, department_id, lo, hi) < hi - lo + 1 {
            match first_free(cs, department_id, draws, digits, 0) {
                Some(c) => Some(c),
                None => pick_from(cs, department_id, draws, (digits + 1) as nat),
            }
        } else {
            pick_from(cs, department_id, draws, (digits + 1) as nat)
        }
    }
}

/// The serial the generator picks for a department given its draw sequence.
pub open spec fn pick_spec(cs: Seq<CourseRow>, department_id: u64, draws: Seq<u64>) -> Option<
    int,
> {
    pick_from(cs, department_id, draws, 3)
}

pub proof fn lemma_pow10_pos(n: nat)
    ensures
        pow10(n) >= 1,
    decreases n,
{
    if n > 0 {
        lemma_pow10_pos((n - 1) as nat);
    }
}

pub proof fn lemma_pow10_mono(a: nat, b: nat)
    requires
        a <= b,
    ensures
        pow10(a) <= pow10(b),
    decreases b,
{
    if a < b {
        lemma_pow10_mono(a, (b - 1) as nat);
        lemma_pow10_pos((b - 1) as nat);
    }
}

/// Candidates land inside their range.
pub proof fn lemma_candidate_in_range(draw: u64, digits: nat)
    requires
        digits >= 1,
    ensures
        range_lower(digits) <= candidate(draw, digits) <= range_upper(digits),
{
    lemma_pow10_pos((digits - 1) as nat);
    let size = range_upper(digits) - range_lower(digits) + 1;
    assert(size == 9 * pow10((digits - 1) as nat));
    assert(0 <= (draw as int) % size < size) by (nonlinear_arith)
        requires
            size > 0,
    ;
}

/// Counts are bounded by the number of courses.
pub proof fn lemma_count_bounds(cs: Seq<CourseRow>, department_id: u64, lo: int, hi: int)
    ensures
        0 <= count_in_range(cs, department_id, lo, hi) <= cs.len(),
    decreases cs.len(),
{
    if cs.len() > 0 {
        lemma_count_bounds(cs.drop_last(), department_id, lo, hi);
    }
}

/// Whatever `first_free` returns is untaken and inside its range.
pub proof fn lemma_first_free_ok(
    cs: Seq<CourseRow>,
    department_id: u64,
    draws: Seq<u64>,
    digits: nat,
    k: nat,
)
    requires
        digits >= 1,
        first_free(cs, department_id, draws, digits, k) is Some,
    ensures
        ({
            let c = first_free(cs, department_id, draws, digits, k)->Some_0;
            &&& !serial_taken(cs, department_id, c)
            &&& range_lower(digits) <= c <= range_upper(digits)
        }),
    decreases 10 - k,
{
    let c0 = candidate(draws[(digits - 3) * 10 + k], digits);
    if k < 10 && !serial_taken(cs, department_id, c0) {
        lemma_candidate_in_range(draws[(digits - 3) * 10 + k], digits);
    } else {
        lemma_first_free_ok(cs, department_id, draws, digits, (k + 1) as nat);
    }
}

/// Whatever the generator picks is untaken and between the smallest
/// three-digit and the largest eighteen-digit value.
pub proof fn lemma_pick_from_ok(
    cs: Seq<CourseRow>,
    department_id: u64,
    draws: Seq<u64>,
    digits: nat,
)
    requires
        3 <= digits,
        pick_from(cs, department_id, draws, digits) is Some,
    ensures
        ({
            let v = pick_from(cs, department_id, draws, digits)->Some_0;
            &&& !serial_taken(cs, department_id, v)
            &&& range_lower(digits) <= v <= range_upper(18)
        }),
    decreases 19 - digits,
{
    let lo = range_lower(digits);
    let hi = range_upper(digits);
    if digits > 18 {
        // contradicts `is Some`
    } else if count_in_range(cs, department_id, lo, hi) < hi - lo + 1 && first_free(
        cs,
        department_id,
        draws,
        digits,
        0,
    ) is Some {
        lemma_first_free_ok(cs, department_id, draws, digits, 0);
        lemma_pow10_mono(digits, 18);
        lemma_pow10_pos((digits - 1) as nat);
    } else {
        lemma_pick_from_ok(cs, department_id, draws, (digits + 1) as nat);
        lemma_pow10_mono((digits - 1) as nat, digits as nat);
    }
}

/// A taken serial inside `[lo, hi]` makes the count of that range positive.
pub proof fn lemma_taken_counts(cs: Seq<CourseRow>, department_id: u64, lo: int, hi: int, n: int)
    requires
        serial_taken(cs, department_id, n),
        lo <= n <= hi,
    ensures
        count_in_range(cs, department_id, lo, hi) > 0,
    decreases cs.len(),
{
    lemma_count_bounds(cs.drop_last(), department_id, lo, hi);
    if !(cs.last().department_id == department_id && cs.last().serial == n) {
        let i = choose|i: int|
            0 <= i < cs.len() && (#[trigger] cs[i]).department_id == department_id && cs[i].serial
                == n;
        assert(cs.drop_last()[i] == cs[i]);
        lemma_taken_counts(cs.drop_last(), department_id, lo, hi, n);
    }
}

/// While no course of the department holds a three-digit serial, the very
/// first draw is free, so the generator cannot fail.
proof fn lemma_empty_range_picks(cs: Seq<CourseRow>, department_id: u64, draws: Seq<u64>)
    requires
        draws.len() >= 10,
        count_in_range(cs, department_id, 100, 999) == 0,
    ensures
        pick_from(cs, department_id, draws, 3) is Some,
{
    reveal_with_fuel(pow10, 4);
    assert(range_lower(3) == 100 && range_upper(3) == 999);
    let c = candidate(draws[0], 3);
    lemma_candidate_in_range(draws[0], 3);
    if serial_taken(cs, department_id, c) {
        lemma_taken_counts(cs, department_id, 100, 999, c);
    }
    assert(first_free(cs, department_id, draws, 3, 0) is Some);
}

/// Ten to the `n`th, computed; `n` is at most eighteen so the result fits.
pub fn pow10_i64(n: u32) -> (r: i64)
    requires
        n <= 18,
    ensures
        r == pow10(n as nat),
{
    proof {
        reveal_with_fuel(pow10, 19);
    }
    let mut r: i64 = 1;
    let mut i: u32 = 0;
    while i < n
        invariant
            i <= n <= 18,
            r == pow10(i as nat),
            pow10(18nat) == 1_000_000_000_000_000_000,
        decreases n - i,
    {
        proof {
            lemma_pow10_pos(i as nat);
            lemma_pow10_mono(i as nat, 17);
            assert(pow10(18nat) == 10 * pow10(17nat));
        }
        r = r * 10;
        i = i + 1;
    }
    r
}

/// Whether some course of the department already carries this serial.
pub fn serial_exists(cs: &Vec<CourseRow>, department_id: u64, serial: i64) -> (r: bool)
    ensures
        r == serial_taken(cs@, department_id, serial as int),
{
    let mut i: usize = 0;
    while i < cs.len()
        invariant
            i <= cs@.len(),
            forall|k: int|
                0 <= k < i ==> !((#[trigger] cs@[k]).department_id == department_id && cs@[k].serial
                    == serial),
        decreases cs@.len() - i,
    {
        if cs[i].department_id == department_id && cs[i].serial == serial {
            return true;
        }
        i = i + 1;
    }
    false
}

/// How many courses of the department have serials within `[lo, hi]`.
pub fn count_serials_in_range(cs: &Vec<CourseRow>, department_id: u64, lo: i64, hi: i64) -> (r:
    u64)
    ensures
        r == count_in_range(cs@, department_id, lo as int, hi as int),
{
    let mut cnt: u64 = 0;
    let mut i: usize = 0;
    while i < cs.len()
        invariant
            i <= cs@.len(),
            cnt == count_in_range(cs@.take(i as int), department_id, lo as int, hi as int),
            cnt <= i,
        decreases cs@.len() - i,
    {
        proof {
            assert(cs@.take(i + 1).drop_last() =~= cs@.take(i as int));
            assert(cs@.take(i + 1).last() == cs@[i as int]);
            lemma_count_bounds(cs@.take(i + 1), department_id, lo as int, hi as int);
        }
        if cs[i].department_id == department_id && lo <= cs[i].serial && cs[i].serial <= hi {
            cnt = cnt + 1;
        }
        i = i + 1;
    }
    proof {
        assert(cs@.take(cs@.len() as int) =~= cs@);
    }
    cnt
}

/// Relies on rand::random: an independently drawn 64-bit value. Any outcome
/// is possible, so nothing is promised of the result.
#[verifier::external_body]
fn random_u64() -> u64 {
    rand::random::<u64>()
}

/// Walk the ranges from `digits` digits upward, exactly as `pick_from`
/// describes, on a fixed draw sequence.
fn pick_from_exec(cs: &Vec<CourseRow>, department_id: u64, draws: &Vec<u64>, digits: u32) -> (r:
    Result<i64, StoreError>)
    requires
        3 <= digits <= 19,
        draws@.len() >= 190,
    ensures
        match r {
            Ok(v) => pick_from(cs@, department_id, draws@, digits as nat) == Some(v as int),
            Err(e) => pick_from(cs@, department_id, draws@, digits as nat) is None && e
                == StoreError::StorageError,
        },
    decreases 19 - digits,
{
    if digits > MAX_DIGITS {
        return Err(StoreError::StorageError);
    }
    let lo = pow10_i64(digits - 1);
    let hi = pow10_i64(digits) - 1;
    proof {
        lemma_pow10_pos((digits - 1) as nat);
        lemma_pow10_mono((digits - 1) as nat, 17);
        reveal_with_fuel(pow10, 19);
        assert(pow10(17nat) == 100_000_000_000_000_000);
        assert(pow10(digits as nat) == 10 * pow10((digits - 1) as nat));
    }
    let size: u64 = (hi - lo + 1) as u64;
    let cnt = count_serials_in_range(cs, department_id, lo, hi);
    if cnt < size {
        let base: usize = ((digits - 3) * DRAWS_PER_RANGE) as usize;
        let ghost dn = digits as nat;
        let mut k: u32 = 0;
        while k < DRAWS_PER_RANGE
            invariant
                k <= 10,
                3 <= digits <= 18,
                dn == digits as nat,
                base == (digits - 3) * 10,
                draws@.len() >= 190,
                lo == range_lower(dn),
                hi == range_upper(dn),
                1 <= lo,
                hi <= 999_999_999_999_999_999,
                size == hi - lo + 1,
                9 <= size <= 900_000_000_000_000_000,
                cnt == count_in_range(cs@, department_id, lo as int, hi as int),
                cnt < size,
                first_free(cs@, department_id, draws@, dn, 0) == first_free(
                    cs@,
                    department_id,
                    draws@,
                    dn,
                    k as nat,
                ),
            decreases 10 - k,
        {
            let draw = draws[base + k as usize];
            let c = lo + ((draw % size) as i64);
            proof {
                assert(0 <= (draw as int) % (size as int) < size as int) by (nonlinear_arith)
                    requires
                        size > 0,
                ;
                assert(c == candidate(draws@[base + k as int], dn));
            }
            if !serial_exists(cs, department_id, c) {
                proof {
                    assert(first_free(cs@, department_id, draws@, dn, k as nat) == Some(c as int));
                    assert(pick_from(cs@, department_id, draws@, dn) == Some(c as int));
                }
                return Ok(c);
            }
            proof {
                assert(first_free(cs@, department_id, draws@, dn, k as nat) == first_free(
                    cs@,
                    department_id,
                    draws@,
                    dn,
                    (k + 1) as nat,
                ));
            }
            k = k + 1;
        }
        proof {
            assert(first_free(cs@, department_id, draws@, dn, 10) is None);
        }
        pick_from_exec(cs, department_id, draws, digits + 1)
    } else {
        pick_from_exec(cs, department_id, draws, digits + 1)
    }
}

/// Generate a serial for a new course of this department: a value no course
/// of the department carries, between the smallest three-digit and the
/// largest eighteen-digit number — drawn from the narrowest range that still
/// has room, so serials stay short while the department is small. Fails with
/// a storage error only if every range up to eighteen digits is given up on;
/// in particular, a department with no three-digit serial at all never fails.
pub fn generate_course_serial(cs: &Vec<CourseRow>, department_id: u64) -> (r: Result<
    i64,
    StoreError,
>)
    ensures
        match r {
            Ok(v) => !serial_taken(cs@, department_id, v as int) && 100 <= v
                <= 999_999_999_999_999_999,
            Err(e) => e == StoreError::StorageError && count_in_range(
                cs@,
                department_id,
                100,
                999,
            ) > 0,
        },
{
    let mut draws: Vec<u64> = Vec::new();
    let mut i: u32 = 0;
    while i < 190
        invariant
            draws@.len() == i,
            i <= 190,
        decreases 190 - i,
    {
        draws.push(random_u64());
        i = i + 1;
    }
    let r = pick_from_exec(cs, department_id, &draws, 3);
    proof {
        if r is Ok {
            lemma_pick_from_ok(cs@, department_id, draws@, 3);
            reveal_with_fuel(pow10, 19);
            assert(range_lower(3) == 100);
            assert(range_upper(18) == 999_999_999_999_999_999);
        } else {
            lemma_count_bounds(cs@, department_id, 100, 999);
            if count_in_range(cs@, department_id, 100, 999) == 0 {
                lemma_empty_range_picks(cs@, department_id, draws@);
            }
        }
    }
    r
}

/// Serials are never reused: whatever the generator picks, under any draw
/// sequence, is a value no course of the department already carries, and it
/// lies between the smallest three-digit and the largest eighteen-digit
/// number.
pub proof fn serial_never_reused(cs: Seq<CourseRow>, department_id: u64, draws: Seq<u64>)
    requires
        pick_spec(cs, department_id, draws) is Some,
    ensures
        !serial_taken(cs, department_id, pick_spec(cs, department_id, draws)->Some_0),
        100 <= pick_spec(cs, department_id, draws)->Some_0 <= 999_999_999_999_999_999,
{
    lemma_pick_from_ok(cs, department_id, draws, 3);
    reveal_with_fuel(pow10, 19);
    assert(range_lower(3) == 100);
    assert(range_upper(18) == 999_999_999_999_999_999);
}

/// If at least one of draws `k..10` maps to an untaken value, `first_free`
/// finds one.
proof fn lemma_first_free_finds(
    cs: Seq<CourseRow>,
    department_id: u64,
    draws: Seq<u64>,
    digits: nat,
    k: nat,
)
    requires
        k < 10,
        exists|j: int|
            (digits - 3) * 10 + k <= j < (digits - 3) * 10 + 10 && !serial_taken(
                cs,
                department_id,
                candidate(#[trigger] draws[j], digits),
            ),
    ensures
        first_free(cs, department_id, draws, digits, k) is Some,
    decreases 10 - k,
{
    let base = (digits - 3) * 10;
    let c = candidate(draws[base + k], digits);
    if !serial_taken(cs, department_id, c) {
    } else {
        let j0 = choose|j: int|
            base + k <= j < base + 10 && !serial_taken(
                cs,
                department_id,
                candidate(#[trigger] draws[j], digits),
            );
        assert(j0 != base + k);
        assert(base + (k + 1) <= j0 < base + 10);
        lemma_first_free_finds(cs, department_id, draws, digits, (k + 1) as nat);
    }
}

/// While a department has fewer than 900 three-digit serials assigned, the
/// three-digit range is not saturated, and whenever any of its ten draws
/// maps to an untaken value the generator picks a three-digit serial that no
/// course of the department carries.
pub proof fn serial_stays_three_digit(cs: Seq<CourseRow>, department_id: u64, draws: Seq<u64>)
    requires
        count_in_range(cs, department_id, 100, 999) < 900,
        exists|j: int|
            0 <= j < 10 && !serial_taken(cs, department_id, candidate(#[trigger] draws[j], 3)),
    ensures
        pick_spec(cs, department_id, draws) is Some,
        100 <= pick_spec(cs, department_id, draws)->Some_0 <= 999,
        !serial_taken(cs, department_id, pick_spec(cs, department_id, draws)->Some_0),
{
    reveal_with_fuel(pow10, 4);
    assert(range_lower(3) == 100 && range_upper(3) == 999);
    assert((3 - 3) * 10 + 0 == 0int);
    lemma_first_free_finds(cs, department_id, draws, 3, 0);
    lemma_first_free_ok(cs, department_id, draws, 3, 0);
}

/// Once the three-digit range is saturated the generator moves to the
/// four-digit range: if that range still has room and any of its ten draws
/// maps to an untaken value, the pick is a four-digit serial that no course
/// of the department carries.
pub proof fn serial_widens_when_full(cs: Seq<CourseRow>, department_id: u64, draws: Seq<u64>)
    requires
        count_in_range(cs, department_id, 100, 999) >= 900,
        count_in_range(cs, department_id, 1000, 9999) < 9000,
        exists|j: int|
            10 <= j < 20 && !serial_taken(cs, department_id, candidate(#[trigger] draws[j], 4)),
    ensures
        pick_spec(cs, department_id, draws) is Some,
        1000 <= pick_spec(cs, department_id, draws)->Some_0 <= 9999,
        !serial_taken(cs, department_id, pick_spec(cs, department_id, draws)->Some_0),
{
    reveal_with_fuel(pow10, 5);
    assert(range_lower(3) == 100 && range_upper(3) == 999);
    assert(range_lower(4) == 1000 && range_upper(4) == 9999);
    assert((4 - 3) * 10 + 0 == 10int);
    lemma_first_free_finds(cs, department_id, draws, 4, 0);
    lemma_first_free_ok(cs, department_id, draws, 4, 0);
    assert(pick_from(cs, department_id, draws, 3) == pick_from(cs, department_id, draws, 4));
}

} // verus!
