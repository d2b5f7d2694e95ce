//! How long a worm may be, how long it should be, how fast it moves and how it is shaded.

use vstd::prelude::*;

verus! {

/// Columns that one segment of a worm takes up.
pub const CELL_W: i16 = 2;

/// The shortest a worm gets.
pub const WORM_MIN_LEN: usize = 4;

/// The longest a worm gets, on the largest of terminals.
pub const WORM_MAX_LEN: usize = 36;

/// The greatest number of worms.
pub const MAX_WORMS: usize = 64;

/// The longest a worm gets on a small terminal.
pub const AREA_BASE_LEN: usize = WORM_MAX_LEN / 2;

/// Lines of the largest terminal that counts as small.
pub const AREA_MINLINES: u32 = 19;

/// Columns of the largest terminal that counts as small.
pub const AREA_MINCOLS: u32 = 80;

/// Lines of the terminal on which worms reach `WORM_MAX_LEN`.
pub const AREA_MAXLINES: u32 = 64;

/// Columns of the terminal on which worms reach `WORM_MAX_LEN`.
pub const AREA_MAXCOLS: u32 = 160;

/// The step delay of an idle system, in milliseconds.
pub const MAX_DELAY_MS: u64 = 100;

/// The step delay of a fully loaded system, in milliseconds.
pub const MIN_DELAY_MS: u64 = 10;

/// The load average of a fully loaded system.
pub const MAX_LOADAVG: u64 = 100;

/// The lesser of two numbers.
pub open spec fn lesser(a: int, b: int) -> int {
    if a <= b {
        a
    } else {
        b
    }
}

/// The greater of two numbers.
pub open spec fn greater(a: int, b: int) -> int {
    if a <= b {
        b
    } else {
        a
    }
}

/// The longest a worm may be on a terminal of `area` cells: 18 segments up to 1520 cells, then
/// one more for every 484 cells, up to 36.
pub open spec fn max_length(area: int) -> int {
    lesser(AREA_BASE_LEN + (greater(area, 1520) - 1520) / 484, WORM_MAX_LEN as int)
}

/// The length that a worm aims at when its CPU is `util` percent busy.
pub open spec fn target(util: int, wmax: int) -> int {
    lesser(greater(util * util * wmax / 10000, WORM_MIN_LEN as int), wmax)
}

/// The length after one step from `length` towards `target`.
pub open spec fn grown(length: int, target: int) -> int {
    greater(
        if length < target {
            length + 1
        } else if length > target {
            length - 1
        } else {
            length
        },
        WORM_MIN_LEN as int,
    )
}

/// The length after `steps` steps from `length` towards `target`.
pub open spec fn grown_often(length: int, target: int, steps: nat) -> int
    decreases steps,
{
    if steps == 0 {
        length
    } else {
        grown_often(grown(length, target), target, (steps - 1) as nat)
    }
}

/// How many base delays a worm waits on top of the first one.
pub open spec fn limit(length: int, wmax: int) -> int {
    let quarter = if wmax >= 4 {
        wmax / 4
    } else {
        1
    };
    greater(4 - (length / quarter) % 0x1_0000_0000, 0)
}

/// The column and row offset of one step in direction `dir`. Direction 0 is down and the numbers
/// go on counter-clockwise; a sideways step covers a whole segment.
pub open spec fn delta(dir: int) -> (int, int) {
    if dir == 1 {
        (1, 1)
    } else if dir == 2 {
        (CELL_W as int, 0)
    } else if dir == 3 {
        (1, -1)
    } else if dir == 4 {
        (0, -1)
    } else if dir == 5 {
        (-1, -1)
    } else if dir == 6 {
        (-(CELL_W as int), 0)
    } else if dir == 7 {
        (-1, 1)
    } else {
        (0, 1)
    }
}

/// The shade of segment `n` in a worm of `length` segments. The worm is cut into four bands whose
/// lengths differ by at most one, the longer ones first.
pub open spec fn shade(n: int, length: int) -> int {
    let div = length / 4;
    let rem = length % 4;
    if div == 0 {
        0
    } else if n < (div + 1) * rem {
        n / (div + 1)
    } else {
        ((n - rem) / div) % 4
    }
}

/// The first segment of band `k` in a worm of `length` segments.
pub open spec fn band_start(k: int, length: int) -> int {
    k * (length / 4) + lesser(k, length % 4)
}

/// The longest a worm may be on a terminal of `cols` by `rows` cells.
pub fn worm_max_length(cols: u16, rows: u16) -> (r: usize)
    ensures
        r == max_length(cols * rows),
        18 <= r <= 36,
        r > 18 ==> cols * rows >= 1520 + 484 * (r - 18),
        r < 36 ==> cols * rows < 1520 + 484 * (r - 17),
{
    assert(cols * rows <= 65535 * 65535) by (nonlinear_arith)
        requires
            cols <= 65535,
            rows <= 65535,
    ;
    let area: usize = (cols as u32 * rows as u32).max(AREA_MINLINES * AREA_MINCOLS) as usize;
    let area_min: usize = (AREA_MINLINES * AREA_MINCOLS) as usize;
    let area_max: usize = (AREA_MAXLINES * AREA_MAXCOLS) as usize;
    let divisor: usize = (area_max - area_min) / AREA_BASE_LEN;
    let ext: usize = ((area - area_min) / divisor.max(1)).min(AREA_BASE_LEN);
    (AREA_BASE_LEN + ext).min(WORM_MAX_LEN)
}

/// The length that a worm aims at on a CPU that is `util` percent busy, where `wmax` is the
/// longest a worm may be: the square of the load, as a share of `wmax`.
pub fn target_length(util: u64, wmax: usize) -> (r: usize)
    requires
        util <= 100,
        wmax <= WORM_MAX_LEN,
    ensures
        r == target(util as int, wmax as int),
        wmax <= 4 ==> r == wmax,
        wmax >= 4 ==> 4 <= r <= wmax,
        wmax >= 4 && r > 4 ==> util * util * wmax >= 10000 * r,
        wmax >= 4 && r < wmax ==> util * util * wmax < 10000 * (r + 1),
{
    assert(util * util <= 10000) by (nonlinear_arith)
        requires
            util <= 100,
    ;
    assert(0 <= util * util * wmax <= 10000 * 36) by (nonlinear_arith)
        requires
            0 <= util * util <= 10000,
            wmax <= 36,
    ;
    let length: usize = (util * util * wmax as u64 / 10000) as usize;
    length.max(WORM_MIN_LEN).min(wmax)
}

/// How many base delays a worm of `length` segments waits on top of the first one, from 0 to 4:
/// the longer the worm, the fewer.
pub fn limit_for(length: usize, wmax: usize) -> (r: u32)
    ensures
        r == limit(length as int, wmax as int),
        r <= 4,
        wmax >= 4 && length <= u32::MAX && r < 4 ==> length >= (4 - r) * (wmax as int / 4),
        wmax >= 4 && length <= u32::MAX && r > 0 ==> length < (5 - r) * (wmax as int / 4),
        wmax < 4 && length <= u32::MAX ==> r == if length <= 4 {
            4 - length
        } else {
            0
        },
{
    proof {
        if length <= u32::MAX {
            if wmax >= 4 {
                lemma_limit_counts_quarters(length as int, wmax as int, wmax as int / 4, 1);
                lemma_limit_counts_quarters(length as int, wmax as int, wmax as int / 4, 2);
                lemma_limit_counts_quarters(length as int, wmax as int, wmax as int / 4, 3);
                lemma_limit_counts_quarters(length as int, wmax as int, wmax as int / 4, 4);
            } else {
                lemma_limit_without_quarters(length as int, wmax as int);
            }
        }
    }
    let div: usize = (wmax / 4).max(1);
    let quarters: u64 = (length / div) as u64;
    assert(quarters as u32 == quarters % 0x1_0000_0000) by (bit_vector);
    4u32.saturating_sub(quarters as u32)
}

/// Holds a step delay between the shortest and the longest one.
pub fn clamp_delay_ms(delay: u64) -> (r: u64)
    ensures
        r == lesser(greater(delay as int, MIN_DELAY_MS as int), MAX_DELAY_MS as int),
        10 <= r <= 100,
        delay < 10 ==> r == 10,
        10 <= delay <= 100 ==> r == delay,
        delay > 100 ==> r == 100,
{
    delay.max(MIN_DELAY_MS).min(MAX_DELAY_MS)
}

/// The column and row offset of one step in direction `dir`.
pub fn dir_delta(dir: u8) -> (r: (i16, i16))
    ensures
        r.0 == delta(dir as int).0,
        r.1 == delta(dir as int).1,
        r.0 == 0 <==> dir == 0 || dir == 4 || dir >= 8,
        r.0 == 1 <==> dir == 1 || dir == 3,
        r.0 == 2 <==> dir == 2,
        r.0 == -1 <==> dir == 5 || dir == 7,
        r.0 == -2 <==> dir == 6,
        r.1 == 0 <==> dir == 2 || dir == 6,
        r.1 == 1 <==> dir == 0 || dir == 1 || dir == 7 || dir >= 8,
        r.1 == -1 <==> 3 <= dir <= 5,
{
    match dir {
        0 => (0, 1),
        1 => (1, 1),
        2 => (CELL_W, 0),
        3 => (1, -1),
        4 => (0, -1),
        5 => (-1, -1),
        6 => (-CELL_W, 0),
        7 => (-1, 1),
        _ => (0, 1),
    }
}

/// The shade, from 0 to 3, of segment `n` in a worm of `length` segments.
pub fn char_index(n: usize, length: usize) -> (r: usize)
    ensures
        r == shade(n as int, length as int),
        r < 4,
        length < 4 ==> r == 0,
        n < length && length >= 4 ==> r * (length as int / 4) + (if r <= length % 4 {
            r as int
        } else {
            length as int % 4
        }) <= n,
        n < length && length >= 4 ==> n < (r + 1) * (length as int / 4) + (if r + 1 <= length % 4 {
            r + 1
        } else {
            length as int % 4
        }),
{
    proof {
        if n < length && length >= 4 {
            lemma_shade_is_band(n as int, length as int);
        }
    }
    let div: usize = length / 4;
    let rem: usize = length % 4;
    if div == 0 {
        return 0;
    }
    assert(rem <= (div + 1) * rem <= (div + 1) * 3) by (nonlinear_arith)
        requires
            0 <= rem <= 3,
            1 <= div,
    ;
    let c: usize = if n < (div + 1) * rem {
        proof {
            lemma_quotient_below(n as int, div + 1, rem as int);
        }
        n / (div + 1)
    } else {
        (n - rem) / div
    };
    c % 4
}

/// A number below `d * k` has a quotient below `k` when it is divided by `d`.
proof fn lemma_quotient_below(n: int, d: int, k: int)
    requires
        0 <= n < d * k,
        0 < d,
    ensures
        0 <= n / d < k,
{
    assert(0 <= n / d < k) by (nonlinear_arith)
        requires
            0 <= n < d * k,
            0 < d,
    ;
}

/// The largest worm grows with the terminal: a terminal with no fewer cells has no lower limit.
pub proof fn lemma_max_length_scales(a: int, b: int)
    requires
        a <= b,
    ensures
        max_length(a) <= max_length(b),
{
}

/// The limit lies between 18 segments, which small terminals have, and 36, which large ones have.
pub proof fn lemma_max_length_bounds(area: int)
    ensures
        AREA_BASE_LEN <= max_length(area) <= WORM_MAX_LEN,
        area <= AREA_MINLINES * AREA_MINCOLS ==> max_length(area) == AREA_BASE_LEN,
        area >= AREA_MAXLINES * AREA_MAXCOLS ==> max_length(area) == WORM_MAX_LEN,
{
}

/// The busier the CPU, the longer the worm aims to be.
pub proof fn lemma_target_grows_with_load(u: int, v: int, wmax: int)
    requires
        0 <= u <= v,
        0 <= wmax,
    ensures
        target(u, wmax) <= target(v, wmax),
{
    assert(u * u * wmax <= v * v * wmax) by (nonlinear_arith)
        requires
            0 <= u <= v,
            0 <= wmax,
    ;
}

/// A worm aims at the shortest length on an idle CPU and at the longest one on a busy CPU, and
/// stays between the two on any other.
pub proof fn lemma_target_bounds(util: int, wmax: int)
    requires
        0 <= util <= 100,
        WORM_MIN_LEN <= wmax,
    ensures
        WORM_MIN_LEN <= target(util, wmax) <= wmax,
        target(0, wmax) == WORM_MIN_LEN,
        target(100, wmax) == wmax,
{
    assert(0 * 0 * wmax == 0 && 100 * 100 * wmax == 10000 * wmax) by (nonlinear_arith);
}

/// A step brings the length one segment closer to the target, and leaves it there once it has
/// been reached.
pub proof fn lemma_grown_approaches(length: int, target: int)
    requires
        WORM_MIN_LEN <= length,
        WORM_MIN_LEN <= target,
    ensures
        length < target ==> grown(length, target) == length + 1,
        length > target ==> grown(length, target) == length - 1,
        length == target ==> grown(length, target) == length,
{
}

/// A worm reaches its target after as many steps as it has segments too few or too many, and keeps
/// that length.
pub proof fn lemma_target_is_reached(length: int, target: int, steps: nat)
    requires
        WORM_MIN_LEN <= length,
        WORM_MIN_LEN <= target,
        target - length <= steps,
        length - target <= steps,
    ensures
        grown_often(length, target, steps) == target,
    decreases steps,
{
    if steps > 0 {
        lemma_target_is_reached(grown(length, target), target, (steps - 1) as nat);
    }
}

/// Longer worms move no slower: more segments never mean more delays.
pub proof fn lemma_limit_falls_with_length(a: int, b: int, wmax: int)
    requires
        0 <= a <= b <= u32::MAX,
    ensures
        limit(a, wmax) >= limit(b, wmax),
{
    let div = if wmax >= 4 {
        wmax / 4
    } else {
        1
    };
    assert(0 <= a / div <= b / div <= b) by (nonlinear_arith)
        requires
            0 <= a <= b,
            1 <= div,
    ;
}

/// A worm of the full length waits for one base delay only, and no worm waits for more than five.
pub proof fn lemma_limit_extremes(length: int, wmax: int)
    requires
        0 <= length,
        4 <= wmax <= u32::MAX,
    ensures
        0 <= limit(length, wmax) <= 4,
        limit(wmax, wmax) == 0,
{
    let div = wmax / 4;
    assert(4 <= wmax / div <= wmax && length / div >= 0) by (nonlinear_arith)
        requires
            4 * div <= wmax,
            1 <= div,
            0 <= length,
    ;
}

/// Directions that differ by four are opposite to each other.
pub proof fn lemma_opposite_directions(dir: int)
    requires
        0 <= dir < 8,
    ensures
        delta((dir + 4) % 8).0 == -delta(dir).0,
        delta((dir + 4) % 8).1 == -delta(dir).1,
{
}

/// The four bands of shades follow one another from the head to the tail: segment `n` has the
/// shade of the band that it lies in.
pub proof fn lemma_shade_is_band(n: int, length: int)
    requires
        0 <= n < length,
        4 <= length,
    ensures
        0 <= shade(n, length) < 4,
        band_start(shade(n, length), length) <= n < band_start(shade(n, length) + 1, length),
        band_start(0, length) == 0,
        band_start(4, length) == length,
{
    let div = length / 4;
    let rem = length % 4;
    if n < (div + 1) * rem {
        let c = n / (div + 1);
        lemma_quotient_below(n, div + 1, rem);
        assert(c * (div + 1) <= n < (c + 1) * (div + 1)) by (nonlinear_arith)
            requires
                c == n / (div + 1),
                0 < div,
        ;
        assert(c * (div + 1) == c * div + c && (c + 1) * (div + 1) == (c + 1) * div + c + 1)
            by (nonlinear_arith);
    } else {
        let c = (n - rem) / div;
        assert((div + 1) * rem == div * rem + rem) by (nonlinear_arith);
        lemma_quotient_below(n - rem, div, 4);
        assert(c * div <= n - rem < (c + 1) * div && rem <= c) by (nonlinear_arith)
            requires
                c == (n - rem) / div,
                div * rem <= n - rem,
                0 < div,
        ;
    }
}

/// Shades only get lighter from the head to the tail.
pub proof fn lemma_shade_is_monotone(m: int, n: int, length: int)
    requires
        0 <= m <= n < length,
        4 <= length,
    ensures
        shade(m, length) <= shade(n, length),
{
    lemma_shade_is_band(m, length);
    lemma_shade_is_band(n, length);
    let div = length / 4;
    let a = shade(m, length);
    let b = shade(n, length);
    if b < a {
        assert((b + 1) * div <= a * div) by (nonlinear_arith)
            requires
                b + 1 <= a,
                0 <= div,
        ;
    }
}

/// The length limit of a terminal counts its cells: below 1520 and 484 more it is 18, and it has
/// one segment more for each further 484 cells, until it stops at 36.
pub proof fn lemma_max_length_counts_cells(area: int, more: int)
    requires
        0 <= more <= 18,
    ensures
        18 <= max_length(area) <= 36,
        max_length(area) >= 18 + more <==> more == 0 || area >= 1520 + 484 * more,
{
}

/// A worm aims at no fewer than `k` segments, where `k` is above the minimum of four, if and only
/// if the square of its load, in ten thousandths of the limit, comes to `k` segments.
pub proof fn lemma_target_is_share_of_limit(util: int, wmax: int, k: int)
    requires
        0 <= util,
        4 < k <= wmax,
    ensures
        target(util, wmax) >= k <==> util * util * wmax >= 10000 * k,
        4 <= target(util, wmax) <= wmax,
{
}

/// Where the limit is four segments or fewer, every worm aims at the limit.
pub proof fn lemma_target_of_tiny_limit(util: int, wmax: int)
    requires
        wmax <= 4,
    ensures
        target(util, wmax) == wmax,
{
}

/// A step changes the length by one towards the target; a worm is never shorter than four.
pub proof fn lemma_grown_by_one(length: int, target: int)
    ensures
        grown(length, target) >= 4,
        4 <= length < target ==> grown(length, target) == length + 1,
        length > target && length > 4 ==> grown(length, target) == length - 1,
        length == target && length >= 4 ==> grown(length, target) == length,
        length <= 4 && target <= 4 ==> grown(length, target) == 4,
        length < 4 ==> grown(length, target) == 4,
{
}

/// A worm's pace goes by quarters of the limit: with `q` segments to a quarter, a worm waits for
/// at most `4 - k` delays on top of the first if and only if it has `k` quarters.
pub proof fn lemma_limit_counts_quarters(length: int, wmax: int, q: int, k: int)
    requires
        0 <= length <= u32::MAX,
        4 * q <= wmax < 4 * q + 4,
        1 <= q,
        1 <= k <= 4,
    ensures
        limit(length, wmax) <= 4 - k <==> length >= k * q,
        0 <= limit(length, wmax) <= 4,
{
    assert(q == wmax / 4);
    assert(0 <= length / q <= length && (length / q >= k <==> length >= k * q))
        by (nonlinear_arith)
        requires
            0 <= length,
            1 <= q,
    ;
}

/// Where the limit has no quarter, every segment counts.
pub proof fn lemma_limit_without_quarters(length: int, wmax: int)
    requires
        0 <= length <= u32::MAX,
        wmax < 4,
    ensures
        limit(length, wmax) == if length <= 4 {
            4 - length
        } else {
            0
        },
{
}

/// Only the low 32 bits of the number of quarters count.
pub proof fn lemma_limit_repeats(length: int, wmax: int, q: int)
    requires
        0 <= length,
        4 * q <= wmax < 4 * q + 4,
        1 <= q,
    ensures
        limit(length + 0x1_0000_0000 * q, wmax) == limit(length, wmax),
{
    assert(q == wmax / 4);
    assert((length + 0x1_0000_0000 * q) / q == length / q + 0x1_0000_0000) by (nonlinear_arith)
        requires
            1 <= q,
    ;
}

/// One step covers one row or none, and one column on the slant or a whole segment sideways:
/// directions 7, 0 and 1 lead down, 3 to 5 up, 1 to 3 right and 5 to 7 left. A number that is no
/// direction leads down.
pub proof fn lemma_direction_offsets(dir: int)
    requires
        0 <= dir,
    ensures
        delta(dir).1 > 0 <==> dir == 7 || dir <= 1 || dir >= 8,
        delta(dir).1 < 0 <==> 3 <= dir <= 5,
        delta(dir).0 > 0 <==> 1 <= dir <= 3,
        delta(dir).0 < 0 <==> 5 <= dir <= 7,
        -1 <= delta(dir).1 <= 1,
        delta(dir).1 != 0 ==> -1 <= delta(dir).0 <= 1,
        delta(dir).1 == 0 ==> delta(dir).0 == 2 || delta(dir).0 == -2,
{
}

/// The four shades take up stretches of the worm that follow one another and whose sizes differ
/// by at most one: of `4 * d + r` segments, the first `r` shades have `d + 1` each and the others
/// `d`.
pub proof fn lemma_shades_are_even(n: int, d: int, r: int, k: int)
    requires
        1 <= d,
        0 <= r < 4,
        0 <= k < 4,
        0 <= n < 4 * d + r,
    ensures
        shade(n, 4 * d + r) == k <==> k * d + (if k <= r {
            k
        } else {
            r
        }) <= n < (k + 1) * d + (if k + 1 <= r {
            k + 1
        } else {
            r
        }),
{
    let length = 4 * d + r;
    lemma_shade_is_band(n, length);
    let c = shade(n, length);
    if c < k {
        assert((c + 1) * d <= k * d) by (nonlinear_arith)
            requires
                c + 1 <= k,
                1 <= d,
        ;
    } else if k < c {
        assert((k + 1) * d <= c * d) by (nonlinear_arith)
            requires
                k + 1 <= c,
                1 <= d,
        ;
    }
}

/// Worms too short for four stretches have the first shade only.
pub proof fn lemma_short_worms_have_one_shade(n: int, length: int)
    requires
        0 <= length < 4,
    ensures
        shade(n, length) == 0,
{
}

/// Behind the tail the shades start again.
pub proof fn lemma_shades_repeat(n: int, d: int, r: int)
    requires
        1 <= d,
        0 <= r < 4,
        (d + 1) * r <= n,
    ensures
        shade(n + 4 * d, 4 * d + r) == shade(n, 4 * d + r),
{
    let length = 4 * d + r;
    assert(length / 4 == d && length % 4 == r);
    assert((n + 4 * d - r) / d == (n - r) / d + 4) by (nonlinear_arith)
        requires
            1 <= d,
    ;
}

} // verus!
