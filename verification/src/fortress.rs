//! Towers of bricks: the number of bricks a tower of a given height and base
//! size takes, and the tallest (then widest) tower that a stock of bricks can
//! build.
use vstd::prelude::*;
use crate::numeric::{div_floor_u128, integer_sqrt};
use crate::text::{chars_of, decimal, parse_u64, parsed_u64, push_char, push_decimal};

verus! {

/// How the ring height changes at a step: the steps alternate `-2`, `+1`,
/// starting with `-2` at step 1.
pub open spec fn step_delta(step: int) -> int {
    if step % 2 == 1 {
        -2
    } else {
        1
    }
}

/// The bricks per unit of height of the ring built at `step` around a
/// core of the given base size.
pub open spec fn ring_width(step: int, size: int) -> int {
    8 * step + 2 * (size - 1)
}

pub open spec fn ring_measure(step: int, cur: int) -> int {
    3 * cur + if step % 2 == 0 {
        4int
    } else {
        0int
    }
}

/// Bricks in the rings from `step` on, when the previous ring had height
/// `cur`: rings are added while their height stays positive.
pub open spec fn ring_bricks(step: int, cur: int, size: int) -> int
    decreases ring_measure(step, cur),
{
    let next = cur + step_delta(step);
    if next <= 0 {
        0
    } else {
        next * ring_width(step, size) + ring_bricks(step + 1, next, size)
    }
}

/// Bricks in the central column of a tower with the given base size.
pub open spec fn core_area(size: int) -> int {
    (1 + size) * (1 + size) / 4
}

/// The number of bricks of a tower of the given height and base size.
pub open spec fn tower_total(height: int, size: int) -> int {
    height * core_area(size) + ring_bricks(1, height, size)
}

/// `h` is the greatest height, and `s` then the greatest size, whose tower
/// takes no more than `n` bricks.
pub open spec fn is_best_tower(n: int, h: int, s: int) -> bool {
    &&& h >= 0
    &&& s >= 1
    &&& tower_total(h, 1) <= n < tower_total(h + 1, 1)
    &&& tower_total(h, s) <= n < tower_total(h, s + 1)
}

/// The line printed for a tower: its height and its number of bricks.
pub open spec fn answer_text(h: nat, bricks: nat) -> Seq<char> {
    decimal(h) + seq![' '] + decimal(bricks)
}

// ---------------------------------------------------------------------------
// Facts about the brick count
// ---------------------------------------------------------------------------

proof fn lemma_rings_nonneg(step: int, cur: int, size: int)
    requires
        step >= 1,
        size >= 1,
    ensures
        ring_bricks(step, cur, size) >= 0,
    decreases ring_measure(step, cur),
{
    let next = cur + step_delta(step);
    if next > 0 {
        lemma_rings_nonneg(step + 1, next, size);
        assert(next * ring_width(step, size) >= 0) by (nonlinear_arith)
            requires
                next > 0,
                ring_width(step, size) >= 8,
        ;
    }
}

proof fn lemma_rings_mono_height(step: int, c1: int, c2: int, size: int)
    requires
        step >= 1,
        size >= 1,
        c1 <= c2,
    ensures
        ring_bricks(step, c1, size) <= ring_bricks(step, c2, size),
    decreases ring_measure(step, c2),
{
    let d = step_delta(step);
    if c1 + d <= 0 {
        lemma_rings_nonneg(step, c2, size);
    } else {
        lemma_rings_mono_height(step + 1, c1 + d, c2 + d, size);
        let w = ring_width(step, size);
        assert((c1 + d) * w <= (c2 + d) * w) by (nonlinear_arith)
            requires
                c1 <= c2,
                w >= 0,
        ;
    }
}

proof fn lemma_rings_mono_size(step: int, cur: int, size: int)
    requires
        step >= 1,
        size >= 1,
    ensures
        ring_bricks(step, cur, size) <= ring_bricks(step, cur, size + 1),
    decreases ring_measure(step, cur),
{
    let next = cur + step_delta(step);
    if next > 0 {
        lemma_rings_mono_size(step + 1, next, size);
        assert(next * ring_width(step, size) <= next * ring_width(step, size + 1)) by (nonlinear_arith)
            requires
                next > 0,
                ring_width(step, size) <= ring_width(step, size + 1),
        ;
    }
}

proof fn lemma_rings_lower(step: int, cur: int, size: int)
    requires
        step >= 1,
        step % 2 == 1,
        size >= 1,
        cur >= 2,
    ensures
        ring_bricks(step, cur, size) >= (cur - 2) * (cur - 2),
    decreases cur,
{
    if cur == 2 {
        assert(step_delta(step) == -2);
        assert(ring_bricks(step, cur, size) == 0);
        assert((cur - 2) * (cur - 2) == 0);
    } else {
        let w1 = ring_width(step, size);
        let w2 = ring_width(step + 1, size);
        let c = cur - 1;
        assert(step_delta(step) == -2);
        assert(step_delta(step + 1) == 1);
        assert(ring_bricks(step, cur, size) == (cur - 2) * w1 + ring_bricks(step + 1, cur - 2, size));
        assert(ring_bricks(step + 1, cur - 2, size) == (cur - 1) * w2 + ring_bricks(
            step + 2,
            c,
            size,
        ));
        lemma_rings_lower(step + 2, c, size);
        let rest = ring_bricks(step + 2, c, size);
        assert((cur - 2) * w1 + (cur - 1) * w2 + rest >= (cur - 2) * (cur - 2))
            by (nonlinear_arith)
            requires
                cur >= 3,
                w1 >= 8,
                w2 >= 16,
                c == cur - 1,
                rest >= (c - 2) * (c - 2),
        ;
    }
}

proof fn lemma_core_area(size: int)
    requires
        size >= 1,
    ensures
        core_area(size) >= size,
        core_area(size + 1) >= core_area(size) + 1,
{
    assert((1 + size) * (1 + size) >= 4 * size) by (nonlinear_arith);
    assert((2 + size) * (2 + size) == (1 + size) * (1 + size) + 2 * size + 3) by (nonlinear_arith);
}

/// The total height of the rings from `step` on, when the previous ring had
/// height `cur`.
spec fn ring_heights(step: int, cur: int) -> int
    decreases ring_measure(step, cur),
{
    let next = cur + step_delta(step);
    if next <= 0 {
        0
    } else {
        next + ring_heights(step + 1, next)
    }
}

proof fn lemma_heights_shift(step: int, cur: int)
    ensures
        ring_heights(step + 2, cur) == ring_heights(step, cur),
    decreases ring_measure(step, cur),
{
    assert(step_delta(step + 2) == step_delta(step));
    let next = cur + step_delta(step);
    if next > 0 {
        lemma_heights_shift(step + 1, next);
    }
}

proof fn lemma_bricks_shift(step: int, cur: int, size: int)
    ensures
        ring_bricks(step + 2, cur, size) == ring_bricks(step, cur, size) + 16 * ring_heights(step, cur),
    decreases ring_measure(step, cur),
{
    assert(step_delta(step + 2) == step_delta(step));
    let next = cur + step_delta(step);
    if next > 0 {
        lemma_bricks_shift(step + 1, next, size);
        assert(next * ring_width(step + 2, size) == next * ring_width(step, size) + 16 * next)
            by (nonlinear_arith);
    }
}

proof fn lemma_heights_closed(h: int)
    requires
        h >= 2,
    ensures
        ring_heights(1, h) == (h - 1) * (h - 1) - 1,
    decreases h,
{
    assert(step_delta(1) == -2);
    assert(step_delta(2) == 1);
    if h == 2 {
        assert(ring_heights(1, h) == 0);
        assert((h - 1) * (h - 1) - 1 == 0);
    } else {
        lemma_heights_closed(h - 1);
        lemma_heights_shift(1, h - 1);
        assert(ring_heights(1, h) == (h - 2) + ring_heights(2, h - 2));
        assert(ring_heights(2, h - 2) == (h - 1) + ring_heights(3, h - 1));
        assert((h - 1) * (h - 1) - 1 == (h - 2) * (h - 2) - 1 + 2 * h - 3) by (nonlinear_arith);
    }
}

/// Towers of heights 0, 1 and 2 are their central column alone.
pub proof fn lemma_tower_base(size: int)
    ensures
        tower_total(0, size) == 0,
        tower_total(1, size) == (1 + size) * (1 + size) / 4,
        tower_total(2, size) == 2 * ((1 + size) * (1 + size) / 4),
{
}

/// One level more, from height `h >= 2`: the central column grows by one
/// level, two new rings of heights `h - 1` and `h` (of `2s + 6` and
/// `2s + 14` bricks per level) go on the inside, and each of the old rings,
/// whose heights add up to `(h - 1)^2 - 1`, moves two steps out and takes
/// 16 more bricks per level. With `lemma_tower_base` this fixes the brick
/// count of every tower.
pub proof fn lemma_tower_next_height(h: int, size: int)
    requires
        h >= 2,
    ensures
        tower_total(h + 1, size) == tower_total(h, size) + (1 + size) * (1 + size) / 4 + (h - 1) * (2
            * size + 6) + h * (2 * size + 14) + 16 * ((h - 1) * (h - 1) - 1),
{
    assert(step_delta(1) == -2);
    assert(step_delta(2) == 1);
    assert(ring_bricks(1, h + 1, size) == (h - 1) * ring_width(1, size) + ring_bricks(2, h - 1, size));
    assert(ring_bricks(2, h - 1, size) == h * ring_width(2, size) + ring_bricks(3, h, size));
    lemma_bricks_shift(1, h, size);
    lemma_heights_closed(h);
    assert((h + 1) * core_area(size) == h * core_area(size) + core_area(size)) by (nonlinear_arith);
}

/// A tower of height 0 takes no bricks.
pub proof fn lemma_tower_empty(size: int)
    ensures
        tower_total(0, size) == 0,
{
    assert(step_delta(1) == -2);
    assert(ring_bricks(1, 0, size) == 0);
}

/// A tower never takes a negative number of bricks.
pub proof fn lemma_tower_nonneg(h: int, size: int)
    requires
        h >= 0,
        size >= 1,
    ensures
        tower_total(h, size) >= 0,
{
    lemma_rings_nonneg(1, h, size);
    assert(h * core_area(size) >= 0) by (nonlinear_arith)
        requires
            h >= 0,
            core_area(size) >= 0,
    ;
}

/// Adding one level to a tower takes more bricks.
pub proof fn lemma_tower_grows_with_height(h: int, size: int)
    requires
        h >= 0,
        size >= 1,
    ensures
        tower_total(h, size) < tower_total(h + 1, size),
{
    lemma_rings_mono_height(1, h, h + 1, size);
    lemma_core_area(size);
    assert(h * core_area(size) < (h + 1) * core_area(size)) by (nonlinear_arith)
        requires
            core_area(size) >= 1,
    ;
}

/// Widening the base of a tower of positive height takes more bricks.
pub proof fn lemma_tower_grows_with_size(h: int, size: int)
    requires
        h >= 1,
        size >= 1,
    ensures
        tower_total(h, size) < tower_total(h, size + 1),
{
    lemma_rings_mono_size(1, h, size);
    lemma_core_area(size);
    assert(h * core_area(size) < h * core_area(size + 1)) by (nonlinear_arith)
        requires
            h >= 1,
            core_area(size + 1) >= core_area(size) + 1,
    ;
}

/// The brick count is strictly increasing in the height.
pub proof fn lemma_tower_height_order(h1: int, h2: int, size: int)
    requires
        0 <= h1 < h2,
        size >= 1,
    ensures
        tower_total(h1, size) < tower_total(h2, size),
    decreases h2 - h1,
{
    lemma_tower_grows_with_height(h2 - 1, size);
    if h1 < h2 - 1 {
        lemma_tower_height_order(h1, h2 - 1, size);
    }
}

/// The brick count is strictly increasing in the base size.
pub proof fn lemma_tower_size_order(h: int, s1: int, s2: int)
    requires
        h >= 1,
        1 <= s1 < s2,
    ensures
        tower_total(h, s1) < tower_total(h, s2),
    decreases s2 - s1,
{
    lemma_tower_grows_with_size(h, s2 - 1);
    if s1 < s2 - 1 {
        lemma_tower_size_order(h, s1, s2 - 1);
    }
}

/// For a given stock there is at most one best tower.
pub proof fn lemma_best_tower_unique(n: int, h1: int, s1: int, h2: int, s2: int)
    requires
        is_best_tower(n, h1, s1),
        is_best_tower(n, h2, s2),
    ensures
        h1 == h2,
        s1 == s2,
{
    if h1 < h2 {
        if h1 + 1 < h2 {
            lemma_tower_height_order(h1 + 1, h2, 1);
        }
    } else if h2 < h1 {
        if h2 + 1 < h1 {
            lemma_tower_height_order(h2 + 1, h1, 1);
        }
    }
    assert(h1 == h2);
    if h1 == 0 {
        lemma_tower_empty(s1);
        lemma_tower_empty(s1 + 1);
        assert(false);
    }
    if s1 < s2 {
        if s1 + 1 < s2 {
            lemma_tower_size_order(h1, s1 + 1, s2);
        }
    } else if s2 < s1 {
        if s2 + 1 < s1 {
            lemma_tower_size_order(h1, s2 + 1, s1);
        }
    }
}

proof fn lemma_tower_lower(h: int, size: int)
    requires
        h >= 2,
        size >= 1,
    ensures
        tower_total(h, size) >= h * core_area(size) + (h - 2) * (h - 2),
{
    lemma_rings_lower(1, h, size);
}

proof fn lemma_tower_at_least_size(h: int, size: int)
    requires
        h >= 1,
        size >= 1,
    ensures
        tower_total(h, size) >= h * size,
{
    lemma_rings_nonneg(1, h, size);
    lemma_core_area(size);
    assert(h * core_area(size) >= h * size) by (nonlinear_arith)
        requires
            h >= 1,
            core_area(size) >= size,
    ;
}

proof fn lemma_small_towers()
    ensures
        tower_total(2, 1) == 2,
        tower_total(3, 1) == 43,
{
    assert(core_area(1) == 1);
    assert(ring_bricks(1, 2, 1) == 0);
    assert(ring_bricks(3, 2, 1) == 0);
    assert(ring_bricks(2, 1, 1) == 32);
    assert(ring_bricks(1, 3, 1) == 40);
}

// ---------------------------------------------------------------------------
// Computing the brick count
// ---------------------------------------------------------------------------

/// The number of bricks of a tower, or `None` where it does not fit in a
/// `u64`.
pub fn tower_checked(height: u64, size: u64) -> (r: Option<u64>)
    requires
        size >= 1,
    ensures
        r == (if tower_total(height as int, size as int) <= u64::MAX {
            Some(tower_total(height as int, size as int) as u64)
        } else {
            None::<u64>
        }),
{
    let ghost total_spec = tower_total(height as int, size as int);
    if height == 0 {
        proof {
            lemma_tower_empty(size as int);
        }
        return Some(0);
    }
    proof {
        lemma_rings_nonneg(1, height as int, size as int);
    }
    if size >= 0x2_0000_0000 {
        proof {
            let a = 1 + size as int;
            assert(a * a >= 0x2_0000_0000 * 0x2_0000_0000) by (nonlinear_arith)
                requires
                    a >= 0x2_0000_0000,
            ;
            assert(height * core_area(size as int) >= core_area(size as int)) by (nonlinear_arith)
                requires
                    height >= 1,
                    core_area(size as int) >= 0,
            ;
        }
        return None;
    }
    let a: u128 = 1 + size as u128;
    proof {
        assert(a * a <= 0x2_0000_0000 * 0x2_0000_0000) by (nonlinear_arith)
            requires
                a <= 0x2_0000_0000,
        ;
    }
    let q: u128 = div_floor_u128(a * a, 4);
    proof {
        assert(q <= 0x1_0000_0000_0000_0000) by (nonlinear_arith)
            requires
                q == a * a / 4,
                a * a <= 0x2_0000_0000 * 0x2_0000_0000,
        ;
        assert(height * q <= 0xffff_ffff_ffff_ffff * 0x1_0000_0000_0000_0000) by (nonlinear_arith)
            requires
                height <= 0xffff_ffff_ffff_ffff,
                q <= 0x1_0000_0000_0000_0000,
        ;
    }
    let mut total: u128 = (height as u128) * q;
    if total > 0xffff_ffff_ffff_ffff {
        return None;
    }
    let mut cur: u64 = height;
    let mut step: u128 = 1;
    loop
        invariant
            1 <= step,
            1 <= size < 0x2_0000_0000,
            total <= 0xffff_ffff_ffff_ffff,
            total + ring_bricks(step as int, cur as int, size as int) == total_spec,
            total_spec == tower_total(height as int, size as int),
            step % 2 == 1 ==> cur + (step - 1) / 2 == height,
            step % 2 == 0 ==> cur + 1 + step / 2 == height,
        ensures
            total == total_spec,
            total <= 0xffff_ffff_ffff_ffff,
        decreases ring_measure(step as int, cur as int),
    {
        let ghost old_cur = cur as int;
        let ghost old_step = step as int;
        proof {
            lemma_rings_nonneg(step as int, cur as int, size as int);
        }
        if step % 2 == 1 {
            if cur <= 2 {
                proof {
                    assert(step_delta(step as int) == -2);
                    assert(ring_bricks(step as int, cur as int, size as int) == 0);
                }
                break;
            }
            cur = cur - 2;
        } else {
            cur = cur + 1;
        }
        let width: u128 = 8 * step + 2 * (size as u128 - 1);
        proof {
            assert(ring_bricks(old_step, old_cur, size as int) == cur * ring_width(old_step, size as int)
                + ring_bricks(old_step + 1, cur as int, size as int));
            lemma_rings_nonneg(old_step + 1, cur as int, size as int);
        }
        if width > 0xffff_ffff_ffff_ffff {
            proof {
                assert(cur * width >= width) by (nonlinear_arith)
                    requires
                        cur >= 1,
                        width >= 0,
                ;
            }
            return None;
        }
        proof {
            assert(cur * width <= 0xffff_ffff_ffff_ffff * 0xffff_ffff_ffff_ffff) by (nonlinear_arith)
                requires
                    cur <= 0xffff_ffff_ffff_ffff,
                    width <= 0xffff_ffff_ffff_ffff,
            ;
        }
        let term: u128 = (cur as u128) * width;
        total = total + term;
        step = step + 1;
        if total > 0xffff_ffff_ffff_ffff {
            return None;
        }
    }
    Some(total as u64)
}

/// The number of bricks of a tower of the given height and base size.
pub fn tower(height: u64, size: u64) -> (r: u64)
    requires
        size >= 1,
        (1 + size) * (1 + size) <= u64::MAX,
        tower_total(height as int, size as int) <= u64::MAX,
    ensures
        r == tower_total(height as int, size as int),
{
    proof {
        lemma_tower_nonneg(height as int, size as int);
    }
    match tower_checked(height, size) {
        Some(v) => v,
        None => 0,
    }
}

fn answer(h: u64, bricks: u64) -> (r: String)
    ensures
        r@ == answer_text(h as nat, bricks as nat),
{
    let mut s = String::new();
    push_decimal(&mut s, h);
    push_char(&mut s, ' ');
    push_decimal(&mut s, bricks);
    s
}

/// Whether the tower of the given height and size takes more than `n`
/// bricks.
fn exceeds(height: u64, size: u64, n: u64) -> (r: bool)
    requires
        size >= 1,
    ensures
        r == (tower_total(height as int, size as int) > n),
{
    proof {
        lemma_tower_nonneg(height as int, size as int);
    }
    match tower_checked(height, size) {
        Some(v) => v > n,
        None => true,
    }
}

/// The answer for a stock of `input` bricks: `IMPOSSIBLE` below the
/// smallest tower that has rings, else the height of the tallest tower that
/// the stock builds, and the bricks of the widest tower of that height that
/// it builds.
pub fn process(input: u64) -> (r: String)
    ensures
        input < 43 ==> r@ == "IMPOSSIBLE"@,
        input >= 43 ==> exists|h: nat, s: nat|
            is_best_tower(input as int, h as int, s as int) && r@ == answer_text(
                h,
                tower_total(h as int, s as int) as nat,
            ),
{
    if input < 43 {
        return String::from_str("IMPOSSIBLE");
    }
    proof {
        lemma_small_towers();
    }
    let root = integer_sqrt(input);
    proof {
        assert(root < 0x1_0000_0000) by (nonlinear_arith)
            requires
                root * root <= input,
                input <= 0xffff_ffff_ffff_ffff,
        ;
        assert(root >= 6) by (nonlinear_arith)
            requires
                input < (root + 1) * (root + 1),
                input >= 43,
        ;
        let h = 2 * root + 1;
        lemma_tower_lower(h as int, 1);
        assert(h * core_area(1) + (h - 2) * (h - 2) > input) by (nonlinear_arith)
            requires
                h == 2 * root + 1,
                root >= 6,
                core_area(1) == 1,
                input < (root + 1) * (root + 1),
        ;
    }
    let mut low: u64 = 0;
    let mut high: u64 = root * 2;
    let mut mid: u64 = 0;
    while low <= high
        invariant
            low <= high + 1,
            high <= 0x2_0000_0000,
            input >= 43,
            tower_total(2, 1) == 2,
            tower_total(3, 1) == 43,
            low == 0 || tower_total(low - 1, 1) < input,
            tower_total(high + 1, 1) > input,
            low == 0 || mid + 1 == low || mid == high + 1,
        decreases high + 1 - low,
    {
        mid = low + (high - low) / 2;
        proof {
            lemma_tower_empty(1);
            lemma_tower_nonneg(mid as int, 1);
        }
        match tower_checked(mid, 1) {
            Some(n) => {
                if n > input {
                    assert(mid != 0);
                    high = mid - 1;
                } else if n < input {
                    low = mid + 1;
                } else {
                    let r = answer(mid, n);
                    proof {
                        lemma_tower_grows_with_height(mid as int, 1);
                        lemma_tower_grows_with_size(mid as int, 1);
                        let hh = mid as nat;
                        let ss = 1nat;
                        assert(is_best_tower(input as int, hh as int, ss as int));
                        assert(r@ == answer_text(hh, tower_total(hh as int, ss as int) as nat));
                    }
                    return r;
                }
            },
            None => {
                assert(mid != 0);
                high = mid - 1;
            },
        }
    }
    let ghost best = high as int;
    proof {
        assert(low == high + 1);
        assert(tower_total(best, 1) < input);
        assert(best >= 3) by {
            if best < 3 {
                if best < 2 {
                    lemma_tower_height_order(best + 1, 3, 1);
                }
            }
        }
    }
    while exceeds(mid, 1, input)
        invariant
            best <= mid <= best + 1,
            tower_total(best, 1) < input,
            tower_total(best + 1, 1) > input,
        decreases mid,
    {
        mid = mid - 1;
    }
    assert(mid == best);
    let mut size: u64 = 2;
    loop
        invariant
            2 <= size,
            input >= 43,
            mid == best,
            best >= 3,
            tower_total(best, 1) <= input < tower_total(best + 1, 1),
            tower_total(best, size - 1) <= input,
        decreases input - size,
    {
        if exceeds(mid, size, input) {
            proof {
                lemma_tower_nonneg(best, (size - 1) as int);
            }
            let bricks = match tower_checked(mid, size - 1) {
                Some(v) => v,
                None => 0,
            };
            let r = answer(mid, bricks);
            proof {
                let hh = best as nat;
                let ss = (size - 1) as nat;
                assert(is_best_tower(input as int, hh as int, ss as int));
                assert(r@ == answer_text(hh, tower_total(hh as int, ss as int) as nat));
            }
            return r;
        }
        proof {
            lemma_tower_at_least_size(best, size as int);
            assert(best * size >= size + 2) by (nonlinear_arith)
                requires
                    best >= 3,
                    size >= 2,
            ;
        }
        size = size + 1;
    }
}

/// The stock of bricks on an input line; `None` where it is not a `u64`.
pub fn parse_line(line: &str) -> (r: Option<u64>)
    ensures
        r == parsed_u64(line@),
{
    let chars = chars_of(line);
    parse_u64(&chars)
}

} // verus!
