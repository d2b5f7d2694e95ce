//! A single worm: where it starts, how it crawls and how it bounces off the edges.

use crate::rng::{lcg, output, rng_next};
use crate::shape::{delta, dir_delta, greater, lesser, CELL_W, WORM_MIN_LEN};
use std::collections::VecDeque;
use vstd::arithmetic::div_mod::{
    lemma_fundamental_div_mod, lemma_fundamental_div_mod_converse, lemma_mod_bound,
    lemma_mod_multiples_basic,
};
use vstd::prelude::*;

verus! {

/// A worm. Its head is the first segment.
pub struct Worm {
    /// Column and row of each segment.
    pub segs: VecDeque<(u16, u16)>,
    /// Direction of movement: 0 is down, and the numbers go on counter-clockwise.
    pub dir: u8,
    /// The length that the worm has now.
    pub length: usize,
    /// The length that it grows or shrinks towards.
    pub target_length: usize,
    /// Steps until the next chance of a sharp turn.
    pub runlength: u16,
    /// When the worm moves next, in nanoseconds.
    pub next_step: u64,
}

/// The state of a worm.
#[verifier::ext_equal]
pub struct WormView {
    pub segs: Seq<(u16, u16)>,
    pub dir: u8,
    pub length: usize,
    pub target_length: usize,
    pub runlength: u16,
    pub next_step: u64,
}

impl View for Worm {
    type V = WormView;

    open spec fn view(&self) -> WormView {
        WormView {
            segs: self.segs@,
            dir: self.dir,
            length: self.length,
            target_length: self.target_length,
            runlength: self.runlength,
            next_step: self.next_step,
        }
    }
}

/// The edge of the terminal that a worm runs into.
pub enum Wall {
    Left,
    Top,
    Right,
    Bottom,
    /// No edge at all.
    Open,
}

/// A 16-bit number read as a signed one.
pub open spec fn as_signed(x: u16) -> int {
    if x < 0x8000 {
        x as int
    } else {
        x - 0x1_0000
    }
}

/// How far a worm that meets no edge turns, by a random number below 128. The sharp turn comes
/// only at the end of a run.
pub open spec fn veer(runlength: u16, rnd: int) -> int {
    if runlength == 0 && rnd > 90 {
        2
    } else if rnd == 1 {
        1
    } else if rnd == 2 {
        -1
    } else {
        0
    }
}

impl WormView {
    /// The place one step ahead of the head.
    pub open spec fn ahead(self) -> (int, int) {
        (
            as_signed(self.segs[0].0) + delta(self.dir as int).0,
            as_signed(self.segs[0].1) + delta(self.dir as int).1,
        )
    }

    /// Whether the next step can be computed in 16 bits, edges included.
    pub open spec fn can_move(self, w: u16, h: u16) -> bool {
        &&& self.segs.len() > 0
        &&& i16::MIN <= self.ahead().0 <= i16::MAX
        &&& i16::MIN <= self.ahead().1 <= i16::MAX
        &&& i16::MIN <= as_signed(w) - CELL_W
        &&& i16::MIN <= as_signed(h) - 1
    }

    /// The edge that the worm meets on its next step. An edge counts only for a worm that moves
    /// towards it.
    pub open spec fn wall(self, w: u16, h: u16) -> Wall {
        let (x, y) = self.ahead();
        if x < 0 && self.dir >= 5 {
            Wall::Left
        } else if y < 0 && 3 <= self.dir <= 5 {
            Wall::Top
        } else if x >= as_signed(w) - CELL_W && 1 <= self.dir <= 3 {
            Wall::Right
        } else if y >= as_signed(h) && (self.dir == 7 || self.dir == 0 || self.dir == 1) {
            Wall::Bottom
        } else {
            Wall::Open
        }
    }

    /// Where the head goes on the next step: straight ahead, back from an edge, and never out of
    /// the terminal.
    pub open spec fn landing(self, w: u16, h: u16) -> (u16, u16) {
        let (x, y) = self.ahead();
        let (x, y) = match self.wall(w, h) {
            Wall::Left => (1, y),
            Wall::Top => (x, 1),
            Wall::Right => (as_signed(w) - CELL_W, y),
            Wall::Bottom => (x, as_signed(h) - 1),
            Wall::Open => (x, y),
        };
        (
            lesser(greater(x, 0), greater(w - CELL_W, 0)) as u16,
            lesser(greater(y, 0), greater(h - 1, 0)) as u16,
        )
    }

    /// The direction after the next step: the opposite one at an edge, else a random turn.
    pub open spec fn turned(self, w: u16, h: u16, rnd: int) -> u8 {
        let change = match self.wall(w, h) {
            Wall::Left => -4,
            Wall::Top => -4,
            Wall::Right => 4,
            Wall::Bottom => 4,
            Wall::Open => veer(self.runlength, rnd),
        };
        ((self.dir + change) % 8) as u8
    }

    /// The worm and the random generator after one step. The head moves, the body follows and
    /// the tail is cut to the length of the worm; only a worm that meets no edge uses up its run
    /// and a random number.
    pub open spec fn stepped(self, w: u16, h: u16, rng: u64) -> (WormView, u64) {
        let open = self.wall(w, h) is Open;
        let segs = seq![self.landing(w, h)] + self.segs;
        let worm = WormView {
            segs: segs.take(lesser(segs.len() as int, self.length as int)),
            dir: self.turned(w, h, output(lcg(rng)) as int % 128),
            runlength: if !open {
                self.runlength
            } else if self.runlength == 0 {
                (self.length % 0x1_0000) as u16
            } else {
                (self.runlength - 1) as u16
            },
            ..self
        };
        (
            worm,
            if open {
                lcg(rng)
            } else {
                rng
            },
        )
    }

    /// Whether the head is on a terminal of `w` columns and `h` rows, with room for the whole
    /// width of a segment.
    pub open spec fn head_on_screen(self, w: u16, h: u16) -> bool {
        self.segs.len() > 0 && on_screen(self.segs[0], w, h)
    }
}

/// Whether a segment is on a terminal of `w` columns and `h` rows, with its whole width.
pub open spec fn on_screen(seg: (u16, u16), w: u16, h: u16) -> bool {
    seg.0 + CELL_W <= w && seg.1 + 1 <= h
}

/// A new worm, and the random generator after it has been made: a short worm, coiled up at a
/// random place, that goes straight or sideways.
pub open spec fn spawned(rng: u64, w: u16, h: u16, now: u64) -> (WormView, u64) {
    let first = lcg(rng);
    let second = lcg(first);
    let third = lcg(second);
    let col = (output(first) as int % (greater(w as int, 4) - 1)) as u16;
    let row = (output(second) as int % greater(h as int, 4)) as u16;
    let worm = WormView {
        segs: Seq::new(WORM_MIN_LEN as nat, |i: int| (col, row)),
        dir: (output(third) as int % 9 / 2 * 2 % 8) as u8,
        length: WORM_MIN_LEN,
        target_length: WORM_MIN_LEN,
        runlength: WORM_MIN_LEN as u16,
        next_step: now,
    };
    (worm, third)
}

/// Reads a 16-bit number as a signed one.
fn to_signed(x: u16) -> (r: i16)
    ensures
        r == as_signed(x),
{
    assert(x < 0x8000 ==> x as i16 == x) by (bit_vector);
    assert(x >= 0x8000 ==> x as i16 == x - 0x1_0000) by (bit_vector);
    x as i16
}

/// Makes a new worm for a terminal of `w` columns and `h` rows, ready to move at `now`.
pub fn mk_worm(rng: &mut u64, w: u16, h: u16, _cpu: usize, now: u64) -> (r: Worm)
    ensures
        (r@, *final(rng)) == spawned(*old(rng), w, h, now),
{
    let cols: u64 = w.max(4) as u64;
    let rows: u64 = h.max(4) as u64;
    let col: u16 = (rng_next(rng) % (cols - 1)) as u16;
    let row: u16 = (rng_next(rng) % rows) as u16;
    let turn: u64 = rng_next(rng) % 9;
    assert((turn >> 1) << 1 == turn / 2 * 2) by (bit_vector)
        requires
            turn < 9,
    ;
    let dir: u8 = ((turn >> 1) << 1) as u8 % 8;

    let mut segs: VecDeque<(u16, u16)> = VecDeque::new();
    for i in 0..WORM_MIN_LEN
        invariant
            segs@ == Seq::new(i as nat, |j: int| (col, row)),
    {
        segs.push_back((col, row));
        assert(segs@ =~= Seq::new((i + 1) as nat, |j: int| (col, row)));
    }

    Worm {
        segs,
        dir,
        length: WORM_MIN_LEN,
        target_length: WORM_MIN_LEN,
        runlength: WORM_MIN_LEN as u16,
        next_step: now,
    }
}

/// Tells whether the next step of a worm can be computed in 16 bits.
pub fn can_move(worm: &Worm, w: u16, h: u16) -> (r: bool)
    ensures
        r == worm@.can_move(w, h),
{
    if worm.segs.len() == 0 {
        return false;
    }
    let (dx, dy) = dir_delta(worm.dir);
    let head: (u16, u16) = worm.segs[0];
    let x: i32 = to_signed(head.0) as i32 + dx as i32;
    let y: i32 = to_signed(head.1) as i32 + dy as i32;
    let max_x: i32 = to_signed(w) as i32 - CELL_W as i32;
    let max_y: i32 = to_signed(h) as i32 - 1;
    -0x8000 <= x && x <= 0x7FFF && -0x8000 <= y && y <= 0x7FFF && -0x8000 <= max_x && -0x8000
        <= max_y
}

/// Moves a worm by one step on a terminal of `w` columns and `h` rows.
pub fn step_worm(worm: &mut Worm, w: u16, h: u16, rng: &mut u64)
    requires
        old(worm)@.can_move(w, h),
    ensures
        (final(worm)@, *final(rng)) == old(worm)@.stepped(w, h, *old(rng)),
{
    let ghost start = worm@;
    let ghost seed = *rng;
    let (dx, dy) = dir_delta(worm.dir);
    let head: (u16, u16) = worm.segs[0];
    let mut nx: i16 = to_signed(head.0) + dx;
    let mut ny: i16 = to_signed(head.1) + dy;
    let mut dir: i16 = worm.dir as i16;

    let rows: i16 = to_signed(h);
    let max_x: i16 = to_signed(w) - CELL_W;
    let max_y: i16 = rows - 1;

    if nx < 0 && worm.dir >= 5 {
        nx = 1;
        dir -= 4;
    } else if ny < 0 && (worm.dir >= 3 && worm.dir <= 5) {
        ny = 1;
        dir -= 4;
    } else if nx >= max_x && (worm.dir >= 1 && worm.dir <= 3) {
        nx = max_x;
        dir += 4;
    } else if ny >= rows && (worm.dir == 7 || worm.dir == 0 || worm.dir == 1) {
        ny = max_y;
        dir += 4;
    } else if worm.runlength == 0 {
        let rnd: u64 = rng_next(rng) % 128;
        if rnd > 90 {
            dir += 2;
        } else if rnd == 1 {
            dir += 1;
        } else if rnd == 2 {
            dir -= 1;
        }
        worm.runlength = low_half(worm.length);
    } else {
        worm.runlength -= 1;
        let rnd: u64 = rng_next(rng) % 128;
        if rnd == 1 {
            dir += 1;
        } else if rnd == 2 {
            dir -= 1;
        }
    }

    // No turn leads below -1, so adding one full turn makes the direction positive.
    worm.dir = ((dir + 8) % 8) as u8;

    let x: u16 = (nx.max(0) as u16).min(w.saturating_sub(CELL_W as u16));
    let y: u16 = (ny.max(0) as u16).min(h.saturating_sub(1));

    worm.segs.push_front((x, y));
    let ghost moved = worm@;
    while worm.segs.len() > worm.length
        invariant
            worm@ == (WormView { segs: worm@.segs, ..moved }),
            lesser(moved.segs.len() as int, moved.length as int) <= worm@.segs.len()
                <= moved.segs.len(),
            worm@.segs == moved.segs.take(worm@.segs.len() as int),
        decreases worm.segs@.len(),
    {
        worm.segs.pop_back();
    }
    proof {
        let after = start.stepped(w, h, seed).0;
        assert(moved.segs =~= seq![start.landing(w, h)] + start.segs);
        assert(moved.dir == after.dir);
        assert(moved.runlength == after.runlength);
    }
}

/// The lowest 16 bits of a length.
fn low_half(length: usize) -> (r: u16)
    ensures
        r == length % 0x1_0000,
{
    let wide: u64 = length as u64;
    assert(wide as u16 == wide % 0x1_0000) by (bit_vector);
    wide as u16
}

/// A new worm lies on the terminal and moves up, down or sideways.
pub proof fn lemma_spawned_on_screen(rng: u64, w: u16, h: u16, now: u64, i: int)
    requires
        4 <= w,
        4 <= h,
        0 <= i < WORM_MIN_LEN,
    ensures
        on_screen(spawned(rng, w, h, now).0.segs[i], w, h),
        spawned(rng, w, h, now).0.dir < 8,
        spawned(rng, w, h, now).0.dir % 2 == 0,
{
}

/// A new worm on a terminal whose sides are below 2^15 has its head on the screen of such a
/// terminal.
pub proof fn lemma_spawned_in_range(rng: u64, w: u16, h: u16, now: u64)
    requires
        w <= i16::MAX,
        h <= i16::MAX,
    ensures
        spawned(rng, w, h, now).0.head_on_screen(i16::MAX as u16, i16::MAX as u16),
{
    let cols = greater(w as int, 4) - 1;
    let rows = greater(h as int, 4);
    lemma_mod_bound(output(lcg(rng)) as int, cols);
    lemma_mod_bound(output(lcg(lcg(rng))) as int, rows);
}

/// A step never takes the head out of the terminal.
pub proof fn lemma_head_stays_on_screen(worm: WormView, w: u16, h: u16, rng: u64)
    requires
        CELL_W <= w,
        1 <= h,
        worm.length > 0,
    ensures
        worm.stepped(w, h, rng).0.head_on_screen(w, h),
{
}

/// A worm that lies on the terminal as a whole still does so after a step.
pub proof fn lemma_worm_stays_on_screen(worm: WormView, w: u16, h: u16, rng: u64, i: int)
    requires
        CELL_W <= w,
        1 <= h,
        forall|j: int| 0 <= j < worm.segs.len() ==> on_screen(#[trigger] worm.segs[j], w, h),
        0 <= i < worm.stepped(w, h, rng).0.segs.len(),
    ensures
        on_screen(worm.stepped(w, h, rng).0.segs[i], w, h),
{
    if i > 0 {
        assert(worm.stepped(w, h, rng).0.segs[i] == worm.segs[i - 1]);
    }
}

/// The body follows the head: every other segment goes where the one before it was.
pub proof fn lemma_body_follows(worm: WormView, w: u16, h: u16, rng: u64, i: int)
    requires
        0 < i < worm.stepped(w, h, rng).0.segs.len(),
    ensures
        worm.stepped(w, h, rng).0.segs[i] == worm.segs[i - 1],
{
}

/// A step adds at most one segment and leaves no more than the worm's length.
pub proof fn lemma_step_fits_length(worm: WormView, w: u16, h: u16, rng: u64)
    ensures
        worm.stepped(w, h, rng).0.segs.len() == lesser(
            worm.segs.len() as int + 1,
            worm.length as int,
        ),
{
}

/// At an edge a worm turns round.
pub proof fn lemma_bounce_reverses(worm: WormView, w: u16, h: u16, rng: u64)
    requires
        worm.dir < 8,
        worm.wall(w, h) !is Open,
    ensures
        worm.stepped(w, h, rng).0.dir == (worm.dir + 4) % 8,
        worm.stepped(w, h, rng).1 == rng,
{
}

/// Away from the edges a worm keeps its direction but for a turn by one or by two eighths, and
/// the latter only at the end of a run.
pub proof fn lemma_voluntary_turns(worm: WormView, w: u16, h: u16, rng: u64)
    requires
        worm.dir < 8,
        worm.wall(w, h) is Open,
    ensures
        ({
            let dir = worm.stepped(w, h, rng).0.dir;
            ||| dir == worm.dir
            ||| dir == (worm.dir + 1) % 8
            ||| dir == (worm.dir + 7) % 8
            ||| dir == (worm.dir + 2) % 8 && worm.runlength == 0
        }),
{
}

/// On a terminal whose sides are below 2^15, a worm with its head on the screen of some such
/// terminal can always move.
pub proof fn lemma_ordinary_terminal_can_move(worm: WormView, w: u16, h: u16)
    requires
        w <= i16::MAX,
        h <= i16::MAX,
        worm.head_on_screen(i16::MAX as u16, i16::MAX as u16),
    ensures
        worm.can_move(w, h),
{
}

/// A worm crawls: its head never moves by more than one segment in either direction.
pub proof fn lemma_moves_one_cell(worm: WormView, w: u16, h: u16, rng: u64)
    requires
        4 <= w <= i16::MAX,
        4 <= h <= i16::MAX,
        worm.length > 0,
        worm.head_on_screen(w, h),
    ensures
        ({
            let from = worm.segs[0];
            let to = worm.stepped(w, h, rng).0.segs[0];
            &&& -CELL_W <= to.0 - from.0 <= CELL_W
            &&& -1 <= to.1 - from.1 <= 1
        }),
{
}

/// Whether `value` is what 16 bits mean when the highest of them is a sign.
pub open spec fn reads_as(bits: u16, value: int) -> bool {
    -32768 <= value <= 32767 && (value == bits || value == bits - 65536)
}

/// Whether `kept` is `wish`, held between 0 and `most`.
pub open spec fn held_within(kept: int, wish: int, most: int) -> bool {
    &&& 0 <= kept <= most
    &&& wish < 0 ==> kept == 0
    &&& 0 <= wish <= most ==> kept == wish
    &&& wish > most ==> kept == most
}

/// In the open a worm goes straight on: if the place ahead is on the terminal and left of its last
/// full cell, the head lands exactly there, one random number is used, the run gets shorter by
/// one or starts again, and the direction changes by no more than a random turn.
pub proof fn lemma_open_step_goes_straight(
    worm: WormView,
    w: u16,
    h: u16,
    rng: u64,
    x: int,
    y: int,
)
    requires
        4 <= w <= 32767,
        4 <= h <= 32767,
        worm.segs.len() > 0,
        worm.segs[0].0 <= 32767,
        worm.segs[0].1 <= 32767,
        worm.length > 0,
        worm.dir < 8,
        x == worm.segs[0].0 + delta(worm.dir as int).0,
        y == worm.segs[0].1 + delta(worm.dir as int).1,
        0 <= x < w - 2,
        0 <= y < h,
    ensures
        ({
            let (next, generator) = worm.stepped(w, h, rng);
            let turn = (next.dir - worm.dir) % 8;
            &&& next.segs[0].0 == x
            &&& next.segs[0].1 == y
            &&& generator == lcg(rng)
            &&& turn == 0 || turn == 1 || turn == 7 || turn == 2
            &&& turn == 2 ==> worm.runlength == 0
            &&& worm.runlength > 0 ==> next.runlength == worm.runlength - 1
            &&& worm.runlength == 0 && worm.length <= 65535 ==> next.runlength == worm.length
        }),
{
}

/// At an edge that a worm moves towards it turns round: the head is set back onto the terminal,
/// one place from the left or top edge or on the last full place at the right or bottom edge, and
/// neither the run nor the random generator is used.
pub proof fn lemma_edge_step_turns_round(
    worm: WormView,
    w: u16,
    h: u16,
    rng: u64,
    x: int,
    y: int,
)
    requires
        4 <= w <= 32767,
        4 <= h <= 32767,
        worm.segs.len() > 0,
        worm.segs[0].0 <= 32765,
        worm.segs[0].1 <= 32766,
        worm.length > 0,
        worm.dir < 8,
        x == worm.segs[0].0 + delta(worm.dir as int).0,
        y == worm.segs[0].1 + delta(worm.dir as int).1,
    ensures
        ({
            let (next, generator) = worm.stepped(w, h, rng);
            let left = x < 0;
            let top = !left && y < 0;
            let right = !left && !top && x >= w - 2 && 1 <= worm.dir <= 3;
            let bottom = !left && !top && !right && y >= h && (worm.dir == 7 || worm.dir <= 1);
            &&& left ==> next.segs[0].0 == 1 && held_within(next.segs[0].1 as int, y, h - 1)
            &&& top ==> next.segs[0].1 == 1 && held_within(next.segs[0].0 as int, x, w - 2)
            &&& right ==> next.segs[0].0 == w - 2 && held_within(next.segs[0].1 as int, y, h - 1)
            &&& bottom ==> next.segs[0].1 == h - 1 && held_within(next.segs[0].0 as int, x, w - 2)
            &&& left || top || right || bottom ==> next.dir == (worm.dir + 4) % 8 && next.runlength
                == worm.runlength && generator == rng
            &&& !(left || top || right || bottom) ==> held_within(next.segs[0].0 as int, x, w - 2)
                && held_within(next.segs[0].1 as int, y, h - 1) && generator == lcg(rng)
        }),
{
}

/// The step on any terminal, with all numbers read as signed ones of 16 bits: where the head
/// lands, and whether the worm turns round.
pub proof fn lemma_step_in_signed_numbers(
    worm: WormView,
    w: u16,
    h: u16,
    rng: u64,
    head: (int, int),
    size: (int, int),
)
    requires
        worm.segs.len() > 0,
        worm.length > 0,
        reads_as(worm.segs[0].0, head.0),
        reads_as(worm.segs[0].1, head.1),
        reads_as(w, size.0),
        reads_as(h, size.1),
    ensures
        ({
            let (next, generator) = worm.stepped(w, h, rng);
            let x = head.0 + delta(worm.dir as int).0;
            let y = head.1 + delta(worm.dir as int).1;
            let left = x < 0 && worm.dir >= 5;
            let top = !left && y < 0 && 3 <= worm.dir <= 5;
            let right = !left && !top && x >= size.0 - 2 && 1 <= worm.dir <= 3;
            let bottom = !left && !top && !right && y >= size.1 && (worm.dir == 7 || worm.dir <= 1);
            let round = left || top || right || bottom;
            &&& held_within(
                next.segs[0].0 as int,
                if left {
                    1
                } else if right {
                    size.0 - 2
                } else {
                    x
                },
                if w >= 2 {
                    w - 2
                } else {
                    0
                },
            )
            &&& held_within(
                next.segs[0].1 as int,
                if top {
                    1
                } else if bottom {
                    size.1 - 1
                } else {
                    y
                },
                if h >= 1 {
                    h - 1
                } else {
                    0
                },
            )
            &&& round ==> (next.dir - worm.dir) % 8 == 4 && next.dir < 8
            &&& round ==> generator == rng && next.runlength == worm.runlength
            &&& !round ==> generator == lcg(rng)
            &&& round <==> worm.wall(w, h) !is Open
        }),
{
}

/// The random turn in the open. Of the 128 equally likely numbers, one turns the worm one way and
/// one the other way by an eighth; at the end of a run, the 37 highest ones turn it by a quarter.
pub proof fn lemma_turns_by_chance(worm: WormView, w: u16, h: u16, rng: u64, chance: int)
    requires
        worm.wall(w, h) is Open,
        0 <= chance < 128,
        (output(lcg(rng)) - chance) % 128 == 0,
    ensures
        ({
            let dir = worm.stepped(w, h, rng).0.dir;
            &&& dir < 8
            &&& chance == 1 ==> (dir - worm.dir) % 8 == 1
            &&& chance == 2 ==> (worm.dir - dir) % 8 == 1
            &&& chance >= 91 && worm.runlength == 0 ==> (dir - worm.dir) % 8 == 2
            &&& chance >= 91 && worm.runlength > 0 ==> (dir - worm.dir) % 8 == 0
            &&& chance == 0 || 3 <= chance <= 90 ==> (dir - worm.dir) % 8 == 0
        }),
{
    lemma_remainder_of_chance(output(lcg(rng)) as int, chance, 128);
}

/// A step in the open uses up one of the run; when the run is over, the next one is as long as
/// the worm, in 16 bits.
pub proof fn lemma_run_counts_down(worm: WormView, w: u16, h: u16, rng: u64)
    requires
        worm.wall(w, h) is Open,
    ensures
        ({
            let run = worm.stepped(w, h, rng).0.runlength;
            &&& worm.runlength > 0 ==> run == worm.runlength - 1
            &&& worm.runlength == 0 ==> (worm.length - run) % 65536 == 0
        }),
{
}

/// A step leaves the length, the target and the time of the worm alone, adds the new head in front
/// and drops no more of the tail than is too much for the length.
pub proof fn lemma_step_keeps_the_rest(worm: WormView, w: u16, h: u16, rng: u64)
    ensures
        ({
            let next = worm.stepped(w, h, rng).0;
            &&& next.length == worm.length
            &&& next.target_length == worm.target_length
            &&& next.next_step == worm.next_step
            &&& next.segs.len() <= worm.length
            &&& next.segs.len() == worm.length || next.segs.len() == worm.segs.len() + 1
            &&& next.segs.len() <= worm.segs.len() + 1
            &&& forall|i: int|
                0 < i < next.segs.len() ==> #[trigger] next.segs[i] == worm.segs[i - 1]
        }),
{
}

/// A worm can move if and only if the place ahead and the edges are numbers of 16 bits with a
/// sign.
pub proof fn lemma_what_can_move(
    worm: WormView,
    w: u16,
    h: u16,
    head: (int, int),
    size: (int, int),
)
    requires
        worm.segs.len() > 0,
        reads_as(worm.segs[0].0, head.0),
        reads_as(worm.segs[0].1, head.1),
        reads_as(w, size.0),
        reads_as(h, size.1),
    ensures
        worm.can_move(w, h) <==> {
            &&& -32768 <= head.0 + delta(worm.dir as int).0 <= 32767
            &&& -32768 <= head.1 + delta(worm.dir as int).1 <= 32767
            &&& -32768 <= size.0 - 2
            &&& -32768 <= size.1 - 1
        },
{
}

/// A new worm takes three random numbers in turn: the column, among all that leave room for its
/// width, the row, and one of nine that stand for the four straight directions, down for three of
/// them and each other one for two. All of its four segments lie in one place, and it may move at
/// once.
pub proof fn lemma_spawned_from_three_numbers(
    rng: u64,
    w: u16,
    h: u16,
    now: u64,
    columns: int,
    rows: int,
    chance: int,
    i: int,
)
    requires
        columns == if w >= 4 {
            w - 1
        } else {
            3
        },
        rows == if h >= 4 {
            h as int
        } else {
            4
        },
        0 <= chance < 9,
        (output(lcg(lcg(lcg(rng)))) - chance) % 9 == 0,
        0 <= i < 4,
    ensures
        ({
            let (worm, generator) = spawned(rng, w, h, now);
            &&& worm.segs.len() == 4
            &&& worm.segs[i] == worm.segs[0]
            &&& worm.segs[0].0 < columns
            &&& worm.segs[0].1 < rows
            &&& (output(lcg(rng)) - worm.segs[0].0) % columns == 0
            &&& (output(lcg(lcg(rng))) - worm.segs[0].1) % rows == 0
            &&& worm.dir == 0 <==> chance <= 1 || chance == 8
            &&& worm.dir == 2 <==> chance == 2 || chance == 3
            &&& worm.dir == 4 <==> chance == 4 || chance == 5
            &&& worm.dir == 6 <==> chance == 6 || chance == 7
            &&& worm.length == 4 && worm.target_length == 4 && worm.runlength == 4
            &&& worm.next_step == now
            &&& generator == lcg(lcg(lcg(rng)))
        }),
{
    let a = output(lcg(rng)) as int;
    let b = output(lcg(lcg(rng))) as int;
    let third = output(lcg(lcg(lcg(rng)))) as int;
    lemma_remainder(a, columns);
    lemma_remainder(b, rows);
    lemma_remainder_of_chance(third, chance, 9);
}

/// A number that is a multiple of `d` away from a smaller one than `d` has that one as its
/// remainder.
proof fn lemma_remainder_of_chance(n: int, chance: int, d: int)
    requires
        0 <= chance < d,
        (n - chance) % d == 0,
    ensures
        n % d == chance,
{
    lemma_fundamental_div_mod(n - chance, d);
    let q = (n - chance) / d;
    assert(n == q * d + chance) by (nonlinear_arith)
        requires
            n - chance == d * q,
    ;
    lemma_fundamental_div_mod_converse(n, d, q, chance);
}

/// A number and its remainder differ by a multiple of the divisor.
proof fn lemma_remainder(n: int, d: int)
    requires
        0 < d,
    ensures
        0 <= n % d < d,
        (n - n % d) % d == 0,
{
    lemma_mod_bound(n, d);
    lemma_fundamental_div_mod(n, d);
    assert(n - n % d == (n / d) * d) by (nonlinear_arith)
        requires
            n == d * (n / d) + n % d,
    ;
    lemma_mod_multiples_basic(n / d, d);
}

/// What is said of a worm is said of all of it.
pub proof fn lemma_worm_is_seen_whole(worm: Worm)
    ensures
        worm@.segs == worm.segs@,
        worm@.dir == worm.dir,
        worm@.length == worm.length,
        worm@.target_length == worm.target_length,
        worm@.runlength == worm.runlength,
        worm@.next_step == worm.next_step,
{
}

} // verus!
