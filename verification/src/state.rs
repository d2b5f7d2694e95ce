//! All worms together: when the load is looked up, and when each worm grows, shrinks and moves.

use crate::cpu::{
    busy_percent, busy_ticks, cpu_count, lemma_busy_percent_bounds, lemma_idle_is_zero,
    lemma_never_idle_is_full, lemma_reading_keeps_cpus, text_of, ticks_fit, CpuSampler, CpuTimes,
    SamplerView,
};
use crate::rng::{seed, seed_from_clock};
use crate::shape::{
    clamp_delay_ms, greater, grown, lemma_grown_by_one, lemma_limit_counts_quarters,
    lemma_limit_extremes, lemma_limit_falls_with_length, lemma_max_length_bounds,
    lemma_max_length_counts_cells, lemma_target_bounds, lemma_target_grows_with_load,
    lemma_target_is_share_of_limit, lesser, limit, limit_for, max_length, target, target_length,
    worm_max_length, MAX_DELAY_MS, MIN_DELAY_MS, WORM_MAX_LEN, WORM_MIN_LEN,
};
use crate::text::lines;
use crate::worm::{
    can_move, lemma_head_stays_on_screen, lemma_ordinary_terminal_can_move, lemma_spawned_in_range,
    lemma_spawned_on_screen, lemma_worm_stays_on_screen, mk_worm, on_screen, spawned, step_worm,
    Worm, WormView,
};
use vstd::prelude::*;

verus! {

/// Time between two looks at the load, in milliseconds.
pub const CPU_POLL_MS: u64 = 500;

/// Nanoseconds in a millisecond.
pub const NANOS_PER_MS: u64 = 1_000_000;

/// The smallest width and height on which the worms move.
pub const MIN_SIDE: u16 = 4;

/// What a look at the system's load gave.
pub struct Reading {
    /// The text of `/proc/stat`, if it could be read.
    pub stat: Option<String>,
    /// The step delay that goes with the load average, in milliseconds.
    pub delay_ms: u64,
    /// When the look was over, in nanoseconds.
    pub taken_at: u64,
}

/// A look at the system's load.
pub struct ReadingView {
    pub stat: Option<Seq<char>>,
    pub delay_ms: u64,
    pub taken_at: u64,
}

impl View for Reading {
    type V = ReadingView;

    open spec fn view(&self) -> ReadingView {
        ReadingView {
            stat: match self.stat {
                Some(text) => Some(text@),
                None => None,
            },
            delay_ms: self.delay_ms,
            taken_at: self.taken_at,
        }
    }
}

impl Reading {
    /// The text of `/proc/stat`, borrowed.
    fn stat_text(&self) -> (r: Option<&str>)
        ensures
            text_of(r) == self@.stat,
    {
        match &self.stat {
            Some(text) => Some(text.as_str()),
            None => None,
        }
    }
}

/// The screensaver: one worm per CPU. Times are in nanoseconds since a moment of the caller's
/// choice.
pub struct NetwareState {
    pub worms: Vec<Worm>,
    pub rng: u64,
    pub cpu: CpuSampler,
    /// The step delay of the fastest worms, in milliseconds.
    pub base_delay_ms: u64,
    /// When the load was last looked up.
    pub last_cpu_poll: u64,
    pub term_w: u16,
    pub term_h: u16,
}

/// The state of the screensaver.
#[verifier::ext_equal]
pub struct StateView {
    pub worms: Seq<WormView>,
    pub rng: u64,
    pub cpu: SamplerView,
    pub base_delay_ms: u64,
    pub last_cpu_poll: u64,
    pub term_w: u16,
    pub term_h: u16,
}

/// The states of several worms.
pub open spec fn views(worms: Seq<Worm>) -> Seq<WormView> {
    worms.map_values(|worm: Worm| worm@)
}

impl View for NetwareState {
    type V = StateView;

    open spec fn view(&self) -> StateView {
        StateView {
            worms: views(self.worms@),
            rng: self.rng,
            cpu: self.cpu@,
            base_delay_ms: self.base_delay_ms,
            last_cpu_poll: self.last_cpu_poll,
            term_w: self.term_w,
            term_h: self.term_h,
        }
    }
}

/// Whether worms move on a terminal of this size.
pub open spec fn large_enough(w: u16, h: u16) -> bool {
    MIN_SIDE <= w && MIN_SIDE <= h
}

/// The longest a worm may be on a terminal of this size.
pub open spec fn longest(w: u16, h: u16) -> int {
    max_length(w * h)
}

/// `n` new worms, made one after the other, and the random generator after them.
pub open spec fn hatched(n: nat, rng: u64, w: u16, h: u16, now: u64) -> (Seq<WormView>, u64)
    decreases n,
{
    if n == 0 {
        (Seq::empty(), rng)
    } else {
        let (worms, next) = hatched((n - 1) as nat, rng, w, h, now);
        let (worm, last) = spawned(next, w, h, now);
        (worms.push(worm), last)
    }
}

/// The time from one step of a worm to the next, in nanoseconds.
pub open spec fn period(length: int, wmax: int, base_delay_ms: int) -> int {
    base_delay_ms * (limit(length, wmax) + 1) * NANOS_PER_MS
}

/// A worm and the random generator at time `now`. A worm whose time has come grows or shrinks by
/// one segment towards its target, moves, and is due again after its period.
pub open spec fn ticked(
    worm: WormView,
    rng: u64,
    w: u16,
    h: u16,
    base_delay_ms: u64,
    now: u64,
) -> (WormView, u64) {
    if now < worm.next_step {
        (worm, rng)
    } else {
        let length = grown(worm.length as int, worm.target_length as int);
        let (moved, next) = (WormView { length: length as usize, ..worm }).stepped(w, h, rng);
        let due = now + period(length, longest(w, h), base_delay_ms as int);
        (WormView { next_step: due as u64, ..moved }, next)
    }
}

/// All worms and the random generator at time `now`; the worms move one after the other.
pub open spec fn all_ticked(
    worms: Seq<WormView>,
    rng: u64,
    w: u16,
    h: u16,
    base_delay_ms: u64,
    now: u64,
) -> (Seq<WormView>, u64)
    decreases worms.len(),
{
    if worms.len() == 0 {
        (worms, rng)
    } else {
        let (before, next) = all_ticked(worms.drop_last(), rng, w, h, base_delay_ms, now);
        let (worm, last) = ticked(worms.last(), next, w, h, base_delay_ms, now);
        (before.push(worm), last)
    }
}

impl WormView {
    /// The worm has as many segments as its length says, that length and the one it aims at are
    /// within the limits, and it moves in one of the eight directions.
    pub open spec fn wf(self) -> bool {
        &&& self.segs.len() == self.length
        &&& WORM_MIN_LEN <= self.length <= WORM_MAX_LEN
        &&& WORM_MIN_LEN <= self.target_length <= WORM_MAX_LEN
        &&& self.dir < 8
    }
}

impl StateView {
    /// There is one worm per CPU, every worm is well formed, and the step delay is within its
    /// limits.
    pub open spec fn wf(self) -> bool {
        &&& self.worms.len() == self.cpu.curr.len()
        &&& forall|i: int| 0 <= i < self.worms.len() ==> (#[trigger] self.worms[i]).wf()
        &&& MIN_DELAY_MS <= self.base_delay_ms <= MAX_DELAY_MS
    }

    /// Whether it is time to look at the load. On a terminal that is too small it never is.
    pub open spec fn poll_due(self, w: u16, h: u16, now: u64) -> bool {
        large_enough(w, h) && now - self.last_cpu_poll >= CPU_POLL_MS * NANOS_PER_MS
    }

    /// The state after a look at the load: every worm aims at the length that goes with the load
    /// of its CPU.
    pub open spec fn polled(self, w: u16, h: u16, reading: ReadingView) -> StateView {
        let cpu = self.cpu.advanced(reading.stat);
        StateView {
            worms: self.worms.map(
                |i: int, worm: WormView|
                    WormView {
                        target_length: target(cpu.util(i), longest(w, h)) as usize,
                        ..worm
                    },
            ),
            cpu,
            base_delay_ms: lesser(
                greater(reading.delay_ms as int, MIN_DELAY_MS as int),
                MAX_DELAY_MS as int,
            ) as u64,
            last_cpu_poll: reading.taken_at,
            ..self
        }
    }

    /// The state after the worms that are due have moved.
    pub open spec fn crawled(self, w: u16, h: u16, now: u64) -> StateView {
        let (worms, rng) = all_ticked(self.worms, self.rng, w, h, self.base_delay_ms, now);
        StateView { worms, rng, ..self }
    }

    /// The state between the two halves of a frame: the size of the terminal is known, and so is
    /// the load, where it was looked up.
    pub open spec fn informed(self, w: u16, h: u16, reading: Option<ReadingView>) -> StateView {
        let sized = StateView { term_w: w, term_h: h, ..self };
        match reading {
            Some(r) => sized.polled(w, h, r),
            None => sized,
        }
    }

    /// The state after one frame: first the load, where it was looked up, then the worms. On a
    /// terminal that is too small nothing happens.
    pub open spec fn stepped(
        self,
        w: u16,
        h: u16,
        reading: Option<ReadingView>,
        now: u64,
    ) -> StateView {
        if !large_enough(w, h) {
            self
        } else {
            self.informed(w, h, reading).crawled(w, h, now)
        }
    }

    /// Whether a frame can be computed: there is a reading if and only if one was due when the
    /// clock was last checked for it, its ticks add up in 64 bits, the worms that are due can
    /// move, and the clock does not run out.
    pub open spec fn can_step(
        self,
        w: u16,
        h: u16,
        checked_at: u64,
        reading: Option<ReadingView>,
        now: u64,
    ) -> bool {
        large_enough(w, h) ==> {
            &&& reading is Some <==> self.poll_due(w, h, checked_at)
            &&& reading matches Some(r) ==> forall|i: int|
                0 <= i < self.worms.len() ==> #[trigger] self.cpu.advanced(r.stat).measurable(i)
            &&& forall|i: int|
                0 <= i < self.worms.len() && (#[trigger] self.worms[i]).next_step <= now
                    ==> self.worms[i].can_move(w, h)
            &&& now + 5 * MAX_DELAY_MS * NANOS_PER_MS <= u64::MAX
        }
    }
}

/// A reading of the load, if there is one.
pub open spec fn reading_of(reading: Option<Reading>) -> Option<ReadingView> {
    match reading {
        Some(r) => Some(r@),
        None => None,
    }
}

impl NetwareState {
    /// The sampler and all worms are well formed, and there is one worm per CPU.
    pub open spec fn wf(&self) -> bool {
        self.cpu.wf() && self@.wf()
    }

    /// Starts the screensaver on a terminal of `w` columns and `h` rows at time `now`, with the
    /// texts of `/proc/cpuinfo` and `/proc/stat`, and the wall clock as the source of randomness.
    pub fn new(
        w: u16,
        h: u16,
        clock: Option<u128>,
        cpuinfo: &str,
        stat: Option<&str>,
        now: u64,
    ) -> (r: Self)
        ensures
            r.wf(),
            r@.worms.len() == cpu_count(cpuinfo@),
            r@ == ({
                let n = cpu_count(cpuinfo@);
                let (worms, rng) = hatched(n as nat, seed(clock), w, h, now);
                StateView {
                    worms,
                    rng,
                    cpu: SamplerView::first(n, text_of(stat)),
                    base_delay_ms: MAX_DELAY_MS,
                    last_cpu_poll: now,
                    term_w: w,
                    term_h: h,
                }
            }),
    {
        let mut rng: u64 = seed_from_clock(clock);
        let cpu: CpuSampler = CpuSampler::new(cpuinfo, stat);
        let n_worms: usize = cpu.num_cpus;
        let mut worms: Vec<Worm> = Vec::new();
        let mut i: usize = 0;
        assert(views(worms@) =~= Seq::empty());
        while i < n_worms
            invariant
                i <= n_worms,
                worms@.len() == i,
                (views(worms@), rng) == hatched(i as nat, seed(clock), w, h, now),
                forall|k: int| 0 <= k < i ==> (#[trigger] views(worms@)[k]).wf(),
            decreases n_worms - i,
        {
            let ghost before = views(worms@);
            let worm: Worm = mk_worm(&mut rng, w, h, i, now);
            let ghost made = worm@;
            worms.push(worm);
            assert(views(worms@) =~= before.push(made));
            assert(made.wf());
            i += 1;
        }
        NetwareState {
            worms,
            rng,
            cpu,
            base_delay_ms: MAX_DELAY_MS,
            last_cpu_poll: now,
            term_w: w,
            term_h: h,
        }
    }

    /// Tells whether it is time to look at the load.
    pub fn poll_due(&self, w: u16, h: u16, now: u64) -> (r: bool)
        ensures
            r == self@.poll_due(w, h, now),
    {
        w >= MIN_SIDE && h >= MIN_SIDE && now.saturating_sub(self.last_cpu_poll) / NANOS_PER_MS
            >= CPU_POLL_MS
    }

    /// Tells whether a frame can be computed.
    pub fn can_step(
        &self,
        w: u16,
        h: u16,
        checked_at: u64,
        reading: &Option<Reading>,
        now: u64,
    ) -> (r: bool)
        requires
            self.wf(),
        ensures
            r == self@.can_step(w, h, checked_at, reading_of(*reading), now),
    {
        if w < MIN_SIDE || h < MIN_SIDE {
            return true;
        }
        if reading.is_some() != self.poll_due(w, h, checked_at) {
            return false;
        }
        if now > u64::MAX - 5 * MAX_DELAY_MS * NANOS_PER_MS {
            return false;
        }
        let mut i: usize = 0;
        while i < self.worms.len()
            invariant
                i <= self.worms.len(),
                large_enough(w, h),
                forall|k: int|
                    0 <= k < i && (#[trigger] self@.worms[k]).next_step <= now
                        ==> self@.worms[k].can_move(w, h),
            decreases self.worms.len() - i,
        {
            let worm: &Worm = &self.worms[i];
            assert(self@.worms[i as int] == worm@);
            if worm.next_step <= now && !can_move(worm, w, h) {
                return false;
            }
            i += 1;
        }
        match reading {
            Some(r) => {
                let mut next = CpuSampler {
                    num_cpus: self.cpu.num_cpus,
                    prev: self.cpu.curr.clone(),
                    curr: self.cpu.prev.clone(),
                };
                assert(next.prev@ =~= self.cpu.curr@);
                assert(next.curr@ =~= self.cpu.prev@);
                next.sample(r.stat_text());
                let mut i: usize = 0;
                while i < self.worms.len()
                    invariant
                        i <= self.worms.len(),
                        next.wf(),
                        next@ == self@.cpu.advanced(r@.stat),
                        reading_of(*reading) == Some(r@),
                        large_enough(w, h),
                        forall|k: int|
                            0 <= k < i ==> #[trigger] self@.cpu.advanced(r@.stat).measurable(k),
                    decreases self.worms.len() - i,
                {
                    if !next.can_measure(i) {
                        return false;
                    }
                    i += 1;
                }
                true
            },
            None => true,
        }
    }

    /// Takes in a look at the load.
    fn poll(&mut self, w: u16, h: u16, reading: Reading)
        requires
            old(self).wf(),
            forall|i: int|
                0 <= i < old(self)@.worms.len() ==> #[trigger] old(self)@.cpu.advanced(
                    reading@.stat,
                ).measurable(i),
        ensures
            final(self).wf(),
            final(self)@ == old(self)@.polled(w, h, reading@),
    {
        let ghost start = self@;
        let ghost cpu = self@.cpu.advanced(reading@.stat);
        self.cpu.advance(reading.stat_text());
        self.base_delay_ms = clamp_delay_ms(reading.delay_ms);
        let wmax: usize = worm_max_length(w, h);
        proof {
            lemma_max_length_bounds(w * h);
        }
        let ghost polled = start.polled(w, h, reading@);
        let ghost before = self@;
        let mut i: usize = 0;
        while i < self.worms.len()
            invariant
                i <= self.worms.len(),
                self.worms.len() == start.worms.len(),
                self@ == (StateView { worms: self@.worms, ..before }),
                self.cpu.wf(),
                self.cpu@ == cpu,
                wmax == longest(w, h),
                WORM_MIN_LEN <= wmax <= WORM_MAX_LEN,
                polled == start.polled(w, h, reading@),
                cpu == start.cpu.advanced(reading@.stat),
                start.wf(),
                forall|k: int|
                    0 <= k < start.worms.len() ==> #[trigger] cpu.measurable(k),
                forall|k: int| 0 <= k < i ==> #[trigger] self@.worms[k] == polled.worms[k],
                forall|k: int|
                    i <= k < start.worms.len() ==> #[trigger] self@.worms[k] == start.worms[k],
                forall|k: int| 0 <= k < i ==> (#[trigger] self@.worms[k]).wf(),
            decreases self.worms.len() - i,
        {
            assert(cpu.measurable(i as int));
            let util: u64 = self.cpu.util_percent(i);
            proof {
                lemma_target_bounds(util as int, wmax as int);
                assert(self@.worms[i as int] == start.worms[i as int]);
                assert(start.worms[i as int].wf());
            }
            let ghost worms = self@.worms;
            self.worms[i].target_length = target_length(util, wmax);
            assert(self@.worms =~= worms.update(i as int, polled.worms[i as int]));
            i += 1;
        }
        self.last_cpu_poll = reading.taken_at;
        assert(self@.worms =~= polled.worms);
    }

    /// Moves the worms that are due.
    fn crawl(&mut self, w: u16, h: u16, now: u64)
        requires
            old(self).wf(),
            forall|i: int|
                0 <= i < old(self)@.worms.len() && (#[trigger] old(self)@.worms[i]).next_step <= now
                    ==> old(self)@.worms[i].can_move(w, h),
            now + 5 * MAX_DELAY_MS * NANOS_PER_MS <= u64::MAX,
        ensures
            final(self).wf(),
            final(self)@ == old(self)@.crawled(w, h, now),
    {
        let ghost start = self@;
        let ghost base = self.base_delay_ms;
        let wmax: usize = worm_max_length(w, h);
        let mut i: usize = 0;
        assert(start.worms.take(0) =~= Seq::empty());
        while i < self.worms.len()
            invariant
                i <= self.worms.len(),
                self.worms.len() == start.worms.len(),
                self@ == (StateView { worms: self@.worms, rng: self.rng, ..start }),
                self.cpu.wf(),
                base == self.base_delay_ms,
                start.wf(),
                wmax == longest(w, h),
                now + 5 * MAX_DELAY_MS * NANOS_PER_MS <= u64::MAX,
                forall|k: int|
                    0 <= k < start.worms.len() && (#[trigger] start.worms[k]).next_step <= now
                        ==> start.worms[k].can_move(w, h),
                (self@.worms.take(i as int), self.rng) == all_ticked(
                    start.worms.take(i as int),
                    start.rng,
                    w,
                    h,
                    base,
                    now,
                ),
                forall|k: int|
                    i <= k < start.worms.len() ==> #[trigger] self@.worms[k] == start.worms[k],
                forall|k: int| 0 <= k < i ==> (#[trigger] self@.worms[k]).wf(),
            decreases self.worms.len() - i,
        {
            let ghost before = self@.worms;
            assert(before[i as int] == start.worms[i as int]);
            assert(start.worms[i as int].wf());
            let base_delay: u64 = self.base_delay_ms;
            tick_worm(&mut self.worms[i], w, h, &mut self.rng, base_delay, now, wmax);
            proof {
                assert(self@.worms =~= before.update(i as int, self.worms[i as int]@));
                assert(start.worms.take(i + 1).drop_last() =~= start.worms.take(i as int));
                assert(self@.worms.take(i + 1) =~= before.take(i as int).push(
                    self@.worms[i as int],
                ));
            }
            i += 1;
        }
        assert(start.worms.take(start.worms.len() as int) =~= start.worms);
        assert(self@.worms.take(start.worms.len() as int) =~= self@.worms);
    }

    /// Computes one frame on a terminal of `w` columns and `h` rows at time `now`. `reading` is
    /// what a look at the load gave, where one was due at time `checked_at`.
    pub fn step(
        &mut self,
        w: u16,
        h: u16,
        checked_at: u64,
        reading: Option<Reading>,
        now: u64,
    )
        requires
            old(self).wf(),
            old(self)@.can_step(w, h, checked_at, reading_of(reading), now),
        ensures
            final(self).wf(),
            final(self)@ == old(self)@.stepped(w, h, reading_of(reading), now),
    {
        if w < MIN_SIDE || h < MIN_SIDE {
            return ;
        }
        self.term_w = w;
        self.term_h = h;
        if let Some(r) = reading {
            self.poll(w, h, r);
        }
        self.crawl(w, h, now);
    }
}

/// Lets one worm grow or shrink and move, if it is due.
fn tick_worm(
    worm: &mut Worm,
    w: u16,
    h: u16,
    rng: &mut u64,
    base_delay_ms: u64,
    now: u64,
    wmax: usize,
)
    requires
        old(worm)@.wf(),
        old(worm)@.next_step <= now ==> old(worm)@.can_move(w, h),
        wmax == longest(w, h),
        MIN_DELAY_MS <= base_delay_ms <= MAX_DELAY_MS,
        now + 5 * MAX_DELAY_MS * NANOS_PER_MS <= u64::MAX,
    ensures
        final(worm)@.wf(),
        (final(worm)@, *final(rng)) == ticked(old(worm)@, *old(rng), w, h, base_delay_ms, now),
{
    if now < worm.next_step {
        return ;
    }
    let ghost start = worm@;
    if worm.length < worm.target_length {
        worm.length += 1;
    } else if worm.length > worm.target_length {
        worm.length -= 1;
    }
    worm.length = worm.length.max(WORM_MIN_LEN);
    let ghost sized = worm@;
    assert(sized =~= WormView {
        length: grown(start.length as int, start.target_length as int) as usize,
        ..start
    });
    step_worm(worm, w, h, rng);
    let limit: u32 = limit_for(worm.length, wmax);
    assert(base_delay_ms * (limit + 1) <= 100 * 5) by (nonlinear_arith)
        requires
            base_delay_ms <= 100,
            limit <= 4,
    ;
    let delay: u64 = base_delay_ms * (limit as u64 + 1) * NANOS_PER_MS;
    worm.next_step = now + delay;
}

/// No worm is lost or added, and each one is handled on its own: what becomes of worm `i` depends
/// on its own state and on a random number only.
pub proof fn lemma_worms_tick_alone(
    worms: Seq<WormView>,
    rng: u64,
    w: u16,
    h: u16,
    base_delay_ms: u64,
    now: u64,
    i: int,
) -> (r: u64)
    requires
        0 <= i < worms.len(),
    ensures
        all_ticked(worms, rng, w, h, base_delay_ms, now).0.len() == worms.len(),
        all_ticked(worms, rng, w, h, base_delay_ms, now).0[i] == ticked(
            worms[i],
            r,
            w,
            h,
            base_delay_ms,
            now,
        ).0,
    decreases worms.len(),
{
    let (before, next) = all_ticked(worms.drop_last(), rng, w, h, base_delay_ms, now);
    lemma_ticking_keeps_worms(worms.drop_last(), rng, w, h, base_delay_ms, now);
    if i < worms.len() - 1 {
        lemma_worms_tick_alone(worms.drop_last(), rng, w, h, base_delay_ms, now, i)
    } else {
        next
    }
}

/// No worm is lost or added when the worms move.
pub proof fn lemma_ticking_keeps_worms(
    worms: Seq<WormView>,
    rng: u64,
    w: u16,
    h: u16,
    base_delay_ms: u64,
    now: u64,
)
    ensures
        all_ticked(worms, rng, w, h, base_delay_ms, now).0.len() == worms.len(),
    decreases worms.len(),
{
    if worms.len() > 0 {
        lemma_ticking_keeps_worms(worms.drop_last(), rng, w, h, base_delay_ms, now);
    }
}

/// A frame on a terminal that is too small leaves everything as it was.
pub proof fn lemma_small_terminal_is_left_alone(
    s: StateView,
    w: u16,
    h: u16,
    reading: Option<ReadingView>,
    now: u64,
)
    requires
        w < MIN_SIDE || h < MIN_SIDE,
    ensures
        s.stepped(w, h, reading, now) == s,
        !s.poll_due(w, h, now),
{
}

/// A look at the load keeps the state well formed.
pub proof fn lemma_informed_is_well_formed(
    s: StateView,
    w: u16,
    h: u16,
    reading: Option<ReadingView>,
)
    requires
        s.wf(),
        s.cpu.prev.len() == s.cpu.curr.len(),
    ensures
        s.informed(w, h, reading).wf(),
{
    if let Some(r) = reading {
        let next = s.informed(w, h, reading);
        if let Some(text) = r.stat {
            lemma_reading_keeps_cpus(s.cpu.prev, lines(text));
        }
        lemma_max_length_bounds(w * h);
        assert forall|i: int| 0 <= i < next.worms.len() implies (#[trigger] next.worms[i]).wf() by {
            assert(s.worms[i].wf());
            lemma_busy_percent_bounds(next.cpu.prev[i], next.cpu.curr[i]);
            lemma_target_bounds(next.cpu.util(i), longest(w, h));
        }
    }
}

/// A worm whose time has not come keeps still, whatever the load.
pub proof fn lemma_early_worm_keeps_still(
    s: StateView,
    w: u16,
    h: u16,
    reading: Option<ReadingView>,
    now: u64,
    i: int,
)
    requires
        0 <= i < s.worms.len(),
        now < s.worms[i].next_step,
    ensures
        ({
            let worm = s.stepped(w, h, reading, now).worms[i];
            worm == WormView { target_length: worm.target_length, ..s.worms[i] }
        }),
{
    if large_enough(w, h) {
        let r = s.informed(w, h, reading);
        let _ = lemma_worms_tick_alone(r.worms, r.rng, w, h, r.base_delay_ms, now, i);
    }
}

/// A worm whose time has come takes its step and is due again after its period, which is that of
/// its new length.
pub proof fn lemma_due_worm_is_rescheduled(
    s: StateView,
    w: u16,
    h: u16,
    reading: Option<ReadingView>,
    now: u64,
    i: int,
)
    requires
        s.wf(),
        s.cpu.prev.len() == s.cpu.curr.len(),
        large_enough(w, h),
        now + 5 * MAX_DELAY_MS * NANOS_PER_MS <= u64::MAX,
        0 <= i < s.worms.len(),
        s.worms[i].next_step <= now,
    ensures
        ({
            let r = s.informed(w, h, reading);
            let worm = s.stepped(w, h, reading, now).worms[i];
            &&& worm.length == grown(s.worms[i].length as int, r.worms[i].target_length as int)
            &&& worm.segs[0] == s.worms[i].landing(w, h)
            &&& worm.next_step == now + period(
                worm.length as int,
                longest(w, h),
                r.base_delay_ms as int,
            )
        }),
{
    let r = s.informed(w, h, reading);
    lemma_informed_is_well_formed(s, w, h, reading);
    let _ = lemma_worms_tick_alone(r.worms, r.rng, w, h, r.base_delay_ms, now, i);
    assert(r.worms[i].wf());
    let length = grown(r.worms[i].length as int, r.worms[i].target_length as int);
    lemma_max_length_bounds(w * h);
    lemma_period_bounds(length, longest(w, h), r.base_delay_ms as int);
    assert(s.worms[i].landing(w, h) == (WormView { length: length as usize, ..r.worms[i] }).landing(
        w,
        h,
    ));
}

/// The fastest worms wait for one base delay and the slowest ones for five.
pub proof fn lemma_period_bounds(length: int, wmax: int, base_delay_ms: int)
    requires
        0 <= length,
        4 <= wmax <= u32::MAX,
        0 <= base_delay_ms,
    ensures
        base_delay_ms * NANOS_PER_MS <= period(length, wmax, base_delay_ms) <= 5 * base_delay_ms
            * NANOS_PER_MS,
        period(wmax, wmax, base_delay_ms) == base_delay_ms * NANOS_PER_MS,
{
    lemma_limit_extremes(length, wmax);
    let delays = limit(length, wmax) + 1;
    assert(base_delay_ms <= base_delay_ms * delays <= 5 * base_delay_ms) by (nonlinear_arith)
        requires
            1 <= delays <= 5,
            0 <= base_delay_ms,
    ;
}

/// Longer worms never wait longer than shorter ones.
pub proof fn lemma_longer_worms_are_faster(a: int, b: int, wmax: int, base_delay_ms: int)
    requires
        0 <= a <= b <= u32::MAX,
        0 <= base_delay_ms,
    ensures
        period(b, wmax, base_delay_ms) <= period(a, wmax, base_delay_ms),
{
    lemma_limit_falls_with_length(a, b, wmax);
    let fewer = limit(b, wmax) + 1;
    let more = limit(a, wmax) + 1;
    assert(base_delay_ms * fewer <= base_delay_ms * more) by (nonlinear_arith)
        requires
            fewer <= more,
            0 <= base_delay_ms,
    ;
}

/// A shorter base delay makes no worm slower.
pub proof fn lemma_shorter_delay_is_faster(length: int, wmax: int, a: int, b: int)
    requires
        0 <= a <= b,
    ensures
        period(length, wmax, a) <= period(length, wmax, b),
{
    let delays = limit(length, wmax) + 1;
    assert(a * delays <= b * delays) by (nonlinear_arith)
        requires
            0 <= delays,
            a <= b,
    ;
}

/// Busier CPUs have worms that aim to be no shorter, and that move no slower once they have grown.
pub proof fn lemma_busier_worms_are_faster(u: int, v: int, w: u16, h: u16, base_delay_ms: int)
    requires
        0 <= u <= v <= 100,
        0 <= base_delay_ms,
    ensures
        target(u, longest(w, h)) <= target(v, longest(w, h)),
        period(target(v, longest(w, h)), longest(w, h), base_delay_ms) <= period(
            target(u, longest(w, h)),
            longest(w, h),
            base_delay_ms,
        ),
{
    let wmax = longest(w, h);
    lemma_max_length_bounds(w * h);
    lemma_target_grows_with_load(u, v, wmax);
    lemma_target_bounds(u, wmax);
    lemma_target_bounds(v, wmax);
    lemma_longer_worms_are_faster(target(u, wmax), target(v, wmax), wmax, base_delay_ms);
}

/// The load is never looked up again before its time.
pub proof fn lemma_polls_keep_their_distance(
    s: StateView,
    w: u16,
    h: u16,
    first: ReadingView,
    now: u64,
    checked_at: u64,
    second: ReadingView,
    later: u64,
)
    requires
        large_enough(w, h),
        s.stepped(w, h, Some(first), now).can_step(w, h, checked_at, Some(second), later),
    ensures
        checked_at >= first.taken_at + CPU_POLL_MS * NANOS_PER_MS,
{
}

/// Without a look at the load, the loads, the delay and the lengths aimed at stay as they are.
pub proof fn lemma_no_reading_keeps_targets(s: StateView, w: u16, h: u16, now: u64, i: int)
    requires
        0 <= i < s.worms.len(),
    ensures
        s.stepped(w, h, None, now).cpu == s.cpu,
        s.stepped(w, h, None, now).base_delay_ms == s.base_delay_ms,
        s.stepped(w, h, None, now).last_cpu_poll == s.last_cpu_poll,
        s.stepped(w, h, None, now).worms.len() == s.worms.len(),
        s.stepped(w, h, None, now).worms[i].target_length == s.worms[i].target_length,
{
    if large_enough(w, h) {
        let _ = lemma_worms_tick_alone(s.worms, s.rng, w, h, s.base_delay_ms, now, i);
    }
}

/// Whether the head of every worm is on the screen of a terminal whose sides are below 2^15.
pub open spec fn heads_in_range(s: StateView) -> bool {
    forall|i: int|
        0 <= i < s.worms.len() ==> (#[trigger] s.worms[i]).head_on_screen(
            i16::MAX as u16,
            i16::MAX as u16,
        )
}

/// As long as the sides of the terminal stay below 2^15, the worms never get stuck: a frame can
/// be computed, and the worms are ready for the next one.
pub proof fn lemma_ordinary_terminal_never_gets_stuck(
    s: StateView,
    w: u16,
    h: u16,
    checked_at: u64,
    reading: Option<ReadingView>,
    now: u64,
)
    requires
        s.wf(),
        heads_in_range(s),
        w <= i16::MAX,
        h <= i16::MAX,
        reading is Some <==> s.poll_due(w, h, checked_at),
        reading matches Some(r) ==> forall|i: int|
            0 <= i < s.worms.len() ==> #[trigger] s.cpu.advanced(r.stat).measurable(i),
        now + 5 * MAX_DELAY_MS * NANOS_PER_MS <= u64::MAX,
    ensures
        s.can_step(w, h, checked_at, reading, now),
        heads_in_range(s.stepped(w, h, reading, now)),
{
    assert forall|i: int|
        0 <= i < s.worms.len() && (
        #[trigger] s.worms[i]).next_step <= now implies s.worms[i].can_move(w, h) by {
        lemma_ordinary_terminal_can_move(s.worms[i], w, h);
    }
    if large_enough(w, h) {
        let r = s.informed(w, h, reading);
        let next = s.stepped(w, h, reading, now);
        lemma_ticking_keeps_worms(r.worms, r.rng, w, h, r.base_delay_ms, now);
        assert forall|i: int| 0 <= i < next.worms.len() implies (
        #[trigger] next.worms[i]).head_on_screen(i16::MAX as u16, i16::MAX as u16) by {
            let rng = lemma_worms_tick_alone(r.worms, r.rng, w, h, r.base_delay_ms, now, i);
            assert(s.worms[i].wf());
            assert(s.worms[i].head_on_screen(i16::MAX as u16, i16::MAX as u16));
            let length = grown(r.worms[i].length as int, r.worms[i].target_length as int);
            let sized = WormView { length: length as usize, ..r.worms[i] };
            lemma_head_stays_on_screen(sized, w, h, rng);
        }
    }
}

/// As many worms hatch as are asked for.
pub proof fn lemma_hatched_count(n: nat, rng: u64, w: u16, h: u16, now: u64)
    ensures
        hatched(n, rng, w, h, now).0.len() == n,
    decreases n,
{
    if n > 0 {
        lemma_hatched_count((n - 1) as nat, rng, w, h, now);
    }
}

/// The worms of a new screensaver are ready to move, if its terminal's sides are below 2^15.
pub proof fn lemma_hatched_in_range(n: nat, rng: u64, w: u16, h: u16, now: u64, i: int)
    requires
        w <= i16::MAX,
        h <= i16::MAX,
        0 <= i < n,
    ensures
        hatched(n, rng, w, h, now).0[i].head_on_screen(i16::MAX as u16, i16::MAX as u16),
    decreases n,
{
    lemma_hatched_count((n - 1) as nat, rng, w, h, now);
    if i < n - 1 {
        lemma_hatched_in_range((n - 1) as nat, rng, w, h, now, i);
    } else {
        lemma_spawned_in_range(hatched((n - 1) as nat, rng, w, h, now).1, w, h, now);
    }
}

/// Whether every segment of every worm is on a terminal of `w` columns and `h` rows.
pub open spec fn all_on_screen(worms: Seq<WormView>, w: u16, h: u16) -> bool {
    forall|i: int, n: int|
        0 <= i < worms.len() && 0 <= n < worms[i].segs.len() ==> on_screen(
            #[trigger] worms[i].segs[n],
            w,
            h,
        )
}

/// New worms lie on the terminal as a whole.
pub proof fn lemma_hatched_on_screen(n: nat, rng: u64, w: u16, h: u16, now: u64)
    requires
        large_enough(w, h),
    ensures
        all_on_screen(hatched(n, rng, w, h, now).0, w, h),
    decreases n,
{
    if n > 0 {
        let worms = hatched(n, rng, w, h, now).0;
        let (before, next) = hatched((n - 1) as nat, rng, w, h, now);
        lemma_hatched_on_screen((n - 1) as nat, rng, w, h, now);
        assert forall|i: int, k: int|
            0 <= i < worms.len() && 0 <= k < worms[i].segs.len() implies on_screen(
            #[trigger] worms[i].segs[k],
            w,
            h,
        ) by {
            if i < before.len() {
                assert(on_screen(before[i].segs[k], w, h));
            } else {
                lemma_spawned_on_screen(next, w, h, now, k);
            }
        }
    }
}

/// As long as the terminal keeps its size, the worms stay on it.
pub proof fn lemma_worms_stay_on_screen(
    s: StateView,
    w: u16,
    h: u16,
    reading: Option<ReadingView>,
    now: u64,
)
    requires
        all_on_screen(s.worms, w, h),
    ensures
        all_on_screen(s.stepped(w, h, reading, now).worms, w, h),
{
    if large_enough(w, h) {
        let r = s.informed(w, h, reading);
        let next = s.stepped(w, h, reading, now);
        lemma_ticking_keeps_worms(r.worms, r.rng, w, h, r.base_delay_ms, now);
        assert forall|i: int, n: int|
            0 <= i < next.worms.len() && 0 <= n < next.worms[i].segs.len() implies on_screen(
            #[trigger] next.worms[i].segs[n],
            w,
            h,
        ) by {
            let rng = lemma_worms_tick_alone(r.worms, r.rng, w, h, r.base_delay_ms, now, i);
            assert forall|k: int| 0 <= k < s.worms[i].segs.len() implies on_screen(
                #[trigger] r.worms[i].segs[k],
                w,
                h,
            ) by {
                assert(on_screen(s.worms[i].segs[k], w, h));
            }
            if r.worms[i].next_step <= now {
                let length = grown(r.worms[i].length as int, r.worms[i].target_length as int);
                let sized = WormView { length: length as usize, ..r.worms[i] };
                lemma_worm_stays_on_screen(sized, w, h, rng, n);
            }
        }
    }
}

/// Whether `m` is the length limit of a terminal with `cells` cells.
pub open spec fn is_limit(m: int, cells: int) -> bool {
    &&& 18 <= m <= 36
    &&& m > 18 ==> cells >= 1520 + 484 * (m - 18)
    &&& m < 36 ==> cells < 1520 + 484 * (m - 17)
}

/// The length limit of a terminal goes by the product of its sides.
pub proof fn lemma_limit_goes_by_both_sides(w: u16, h: u16, m: int)
    ensures
        is_limit(m, w * h) <==> m == longest(w, h),
{
    let cells = w * h;
    if is_limit(m, cells) {
        lemma_max_length_counts_cells(cells, m - 18);
        if m < 36 {
            lemma_max_length_counts_cells(cells, m - 17);
        }
    }
    if m == longest(w, h) {
        lemma_max_length_counts_cells(cells, m - 18);
        if m < 36 {
            lemma_max_length_counts_cells(cells, m - 17);
        }
    }
}

/// After a frame with a look at the load, worm `i` aims at the length that goes with what its own
/// CPU did between the two latest readings `p` and `c`, whatever the other CPUs did: four segments
/// if it gained no ticks of work, the limit `m` of the terminal if it gained no ticks of idling
/// but some of work, and at least `k` segments if and only if the square of its load comes to `k`.
pub proof fn lemma_worm_follows_its_own_cpu(
    s: StateView,
    w: u16,
    h: u16,
    reading: ReadingView,
    now: u64,
    i: int,
    p: CpuTimes,
    c: CpuTimes,
    m: int,
    k: int,
)
    requires
        4 <= w,
        4 <= h,
        is_limit(m, w * h),
        0 <= i < s.worms.len(),
        s.worms.len() == s.cpu.curr.len(),
        s.cpu.prev.len() == s.cpu.curr.len(),
        p == s.cpu.advanced(reading.stat).prev[i],
        c == s.cpu.advanced(reading.stat).curr[i],
        4 < k <= m,
    ensures
        ({
            let aim = s.stepped(w, h, Some(reading), now).worms[i].target_length;
            let load = busy_percent(p, c);
            let no_work = c == CpuTimes { idle: c.idle, io: c.io, ..p };
            let some_work = p.user <= c.user && p.nice <= c.nice && p.sys <= c.sys && p.irq
                <= c.irq && p.sirq <= c.sirq && p.steal <= c.steal && c.guest == p.guest
                && c.guest_nice == p.guest_nice && p.guest <= p.user && p.guest_nice <= p.nice && !(
            p.user == c.user && p.nice == c.nice && p.sys == c.sys && p.irq == c.irq && p.sirq
                == c.sirq && p.steal == c.steal);
            let no_idling = c.idle == p.idle && c.io == p.io;
            &&& 4 <= aim <= m
            &&& no_work ==> aim == 4
            &&& some_work && no_idling ==> aim == m
            &&& aim >= k <==> load * load * m >= 10000 * k
        }),
{
    let r = s.informed(w, h, Some(reading));
    if let Some(text) = reading.stat {
        lemma_reading_keeps_cpus(s.cpu.prev, lines(text));
    }
    lemma_limit_goes_by_both_sides(w, h, m);
    let _ = lemma_worms_tick_alone(r.worms, r.rng, w, h, r.base_delay_ms, now, i);
    let load = busy_percent(p, c);
    lemma_busy_percent_bounds(p, c);
    lemma_target_bounds(load, m);
    lemma_target_is_share_of_limit(load, m, k);
    assert(r.worms[i].target_length == target(load, m));
    if c == (CpuTimes { idle: c.idle, io: c.io, ..p }) {
        lemma_idle_is_zero(p, c);
    }
    if c.idle == p.idle && c.io == p.io && busy_ticks(p, c) > 0 {
        lemma_never_idle_is_full(p, c);
    }
}

/// A look at the load sets the delay, between 10 and 100 milliseconds, and the time of the look; a
/// frame without one leaves both alone. Every frame notes the size of the terminal.
pub proof fn lemma_frame_takes_in_delay_and_size(
    s: StateView,
    w: u16,
    h: u16,
    reading: ReadingView,
    now: u64,
)
    requires
        4 <= w,
        4 <= h,
    ensures
        ({
            let with = s.stepped(w, h, Some(reading), now);
            let without = s.stepped(w, h, None, now);
            &&& reading.delay_ms < 10 ==> with.base_delay_ms == 10
            &&& 10 <= reading.delay_ms <= 100 ==> with.base_delay_ms == reading.delay_ms
            &&& reading.delay_ms > 100 ==> with.base_delay_ms == 100
            &&& with.last_cpu_poll == reading.taken_at
            &&& with.cpu == s.cpu.advanced(reading.stat)
            &&& with.term_w == w && with.term_h == h
            &&& without.base_delay_ms == s.base_delay_ms
            &&& without.last_cpu_poll == s.last_cpu_poll
            &&& without.cpu == s.cpu
            &&& without.term_w == w && without.term_h == h
        }),
{
}

/// On a terminal with a side below four nothing changes and nothing is looked up; on any other the
/// load is looked up once half a second has passed since the last time.
pub proof fn lemma_when_the_load_is_due(
    s: StateView,
    w: u16,
    h: u16,
    reading: Option<ReadingView>,
    now: u64,
)
    ensures
        w < 4 || h < 4 ==> s.stepped(w, h, reading, now) == s,
        s.poll_due(w, h, now) <==> w >= 4 && h >= 4 && now >= s.last_cpu_poll + 500_000_000,
{
}

/// A worm that has `k` of the four quarters of the limit, with `q` segments to a quarter, moves
/// every `5 - k` base delays.
pub proof fn lemma_period_counts_quarters(length: int, wmax: int, base: int, q: int, k: int)
    requires
        0 <= length <= u32::MAX,
        4 * q <= wmax < 4 * q + 4,
        1 <= q,
        0 <= k <= 4,
        k * q <= length,
        k < 4 ==> length < (k + 1) * q,
    ensures
        period(length, wmax, base) == base * (5 - k) * 1_000_000,
{
    if k > 0 {
        lemma_limit_counts_quarters(length, wmax, q, k);
    } else {
        lemma_limit_counts_quarters(length, wmax, q, 1);
    }
    if k < 4 {
        lemma_limit_counts_quarters(length, wmax, q, k + 1);
    }
    assert(limit(length, wmax) == 4 - k);
}

/// The worms take turns at the random generator, in their order: the result holds its states, each
/// of which one worm finds and the next one is left with.
pub proof fn lemma_worms_take_turns(
    worms: Seq<WormView>,
    rng: u64,
    w: u16,
    h: u16,
    base_delay_ms: u64,
    now: u64,
) -> (states: Seq<u64>)
    ensures
        ({
            let (after, last) = all_ticked(worms, rng, w, h, base_delay_ms, now);
            &&& states.len() == worms.len() + 1
            &&& states[0] == rng
            &&& states[worms.len() as int] == last
            &&& after.len() == worms.len()
            &&& forall|i: int|
                0 <= i < worms.len() ==> (#[trigger] after[i], states[i + 1]) == ticked(
                    worms[i],
                    states[i],
                    w,
                    h,
                    base_delay_ms,
                    now,
                )
        }),
    decreases worms.len(),
{
    if worms.len() == 0 {
        seq![rng]
    } else {
        let before = lemma_worms_take_turns(
            worms.drop_last(),
            rng,
            w,
            h,
            base_delay_ms,
            now,
        );
        let (done, next) = all_ticked(worms.drop_last(), rng, w, h, base_delay_ms, now);
        let (after, last) = all_ticked(worms, rng, w, h, base_delay_ms, now);
        let states = before.push(last);
        assert forall|i: int| 0 <= i < worms.len() implies (#[trigger] after[i], states[i + 1])
            == ticked(worms[i], states[i], w, h, base_delay_ms, now) by {
            if i < worms.len() - 1 {
                assert(after[i] == done[i]);
                assert(worms.drop_last()[i] == worms[i]);
            }
        }
        states
    }
}

/// A worm before its time stays as it is and uses no random number. A worm whose time has come
/// becomes one segment longer or shorter if its target is, takes a step at its new length, and is
/// due again after as many base delays as go with the quarters `k` of `q` segments that it then
/// has.
pub proof fn lemma_tick_of_one_worm(
    worm: WormView,
    rng: u64,
    w: u16,
    h: u16,
    base: u64,
    now: u64,
    length: usize,
    m: int,
    q: int,
    k: int,
)
    requires
        4 <= worm.length <= 36,
        4 <= worm.target_length <= 36,
        worm.length < worm.target_length ==> length == worm.length + 1,
        worm.length > worm.target_length ==> length == worm.length - 1,
        worm.length == worm.target_length ==> length == worm.length,
        is_limit(m, w * h),
        4 * q <= m < 4 * q + 4,
        0 <= k <= 4,
        k * q <= length,
        k < 4 ==> length < (k + 1) * q,
        base <= 100,
        now + 500_000_000 <= u64::MAX,
    ensures
        ({
            let (after, generator) = ticked(worm, rng, w, h, base, now);
            let (moved, next) = (WormView { length, ..worm }).stepped(w, h, rng);
            &&& now < worm.next_step ==> after == worm && generator == rng
            &&& now >= worm.next_step ==> after == WormView { next_step: after.next_step, ..moved }
            &&& now >= worm.next_step ==> generator == next
            &&& now >= worm.next_step ==> after.next_step == now + base * (5 - k) * 1_000_000
        }),
{
    lemma_limit_goes_by_both_sides(w, h, m);
    lemma_grown_by_one(worm.length as int, worm.target_length as int);
    lemma_period_counts_quarters(length as int, m, base as int, q, k);
    let delays = 5 - k;
    assert(0 <= base * delays <= 500) by (nonlinear_arith)
        requires
            0 <= base <= 100,
            1 <= delays <= 5,
    ;
}

/// The worms hatch one after the other from one random generator: the result holds its states.
pub proof fn lemma_worms_hatch_in_turn(n: nat, rng: u64, w: u16, h: u16, now: u64) -> (states: Seq<
    u64,
>)
    ensures
        ({
            let (worms, last) = hatched(n, rng, w, h, now);
            &&& states.len() == n + 1
            &&& states[0] == rng
            &&& states[n as int] == last
            &&& worms.len() == n
            &&& forall|i: int|
                0 <= i < n ==> (#[trigger] worms[i], states[i + 1]) == spawned(
                    states[i],
                    w,
                    h,
                    now,
                )
        }),
    decreases n,
{
    if n == 0 {
        seq![rng]
    } else {
        let before = lemma_worms_hatch_in_turn((n - 1) as nat, rng, w, h, now);
        let (done, next) = hatched((n - 1) as nat, rng, w, h, now);
        let (worms, last) = hatched(n, rng, w, h, now);
        let states = before.push(last);
        assert forall|i: int| 0 <= i < n implies (#[trigger] worms[i], states[i + 1]) == spawned(
            states[i],
            w,
            h,
            now,
        ) by {
            if i < n - 1 {
                assert(worms[i] == done[i]);
            }
        }
        states
    }
}

/// Frames on terminals with sides below 2^15 can be computed: all that is asked for is a reading
/// where one is due and only there, counters that can be measured, heads that some such terminal
/// could have held, and half a second left on the clock.
pub proof fn lemma_ordinary_frames_can_be_computed(
    s: StateView,
    w: u16,
    h: u16,
    checked_at: u64,
    reading: Option<ReadingView>,
    now: u64,
)
    requires
        w <= 32767,
        h <= 32767,
        s.cpu.prev.len() == s.cpu.curr.len(),
        reading is Some <==> w >= 4 && h >= 4 && checked_at >= s.last_cpu_poll + 500_000_000,
        reading matches Some(r) ==> forall|i: int|
            0 <= i < s.worms.len() ==> ticks_fit(
                #[trigger] s.cpu.advanced(r.stat).prev[i],
                s.cpu.advanced(r.stat).curr[i],
            ),
        forall|i: int|
            0 <= i < s.worms.len() ==> (#[trigger] s.worms[i]).segs.len() > 0
                && s.worms[i].segs[0].0 <= 32765 && s.worms[i].segs[0].1 <= 32766,
        now + 500_000_000 <= u64::MAX,
    ensures
        s.can_step(w, h, checked_at, reading, now),
{
    assert forall|i: int|
        0 <= i < s.worms.len() && (
        #[trigger] s.worms[i]).next_step <= now implies s.worms[i].can_move(w, h) by {
        lemma_ordinary_terminal_can_move(s.worms[i], w, h);
    }
    if let Some(r) = reading {
        assert forall|i: int| 0 <= i < s.worms.len() implies #[trigger] s.cpu.advanced(
            r.stat,
        ).measurable(i) by {
            assert(ticks_fit(s.cpu.advanced(r.stat).prev[i], s.cpu.advanced(r.stat).curr[i]));
        }
    }
}

/// A frame moves the worms in their order. Each of them starts from what it was, but for the
/// length that it aims at, and finds the random generator as the one before it left it; the result
/// holds the states of the generator.
pub proof fn lemma_frame_moves_worms_in_turn(
    s: StateView,
    w: u16,
    h: u16,
    reading: Option<ReadingView>,
    now: u64,
) -> (states: Seq<u64>)
    requires
        4 <= w,
        4 <= h,
    ensures
        ({
            let next = s.stepped(w, h, reading, now);
            &&& next.worms.len() == s.worms.len()
            &&& states.len() == s.worms.len() + 1
            &&& states[0] == s.rng
            &&& states[s.worms.len() as int] == next.rng
            &&& forall|i: int|
                0 <= i < s.worms.len() ==> (#[trigger] next.worms[i], states[i + 1]) == ticked(
                    WormView { target_length: next.worms[i].target_length, ..s.worms[i] },
                    states[i],
                    w,
                    h,
                    next.base_delay_ms,
                    now,
                )
            &&& reading is None ==> forall|i: int|
                0 <= i < s.worms.len() ==> (#[trigger] next.worms[i]).target_length
                    == s.worms[i].target_length
        }),
{
    let r = s.informed(w, h, reading);
    let next = s.stepped(w, h, reading, now);
    let states = lemma_worms_take_turns(r.worms, r.rng, w, h, r.base_delay_ms, now);
    assert forall|i: int| 0 <= i < s.worms.len() implies (#[trigger] next.worms[i], states[i + 1])
        == ticked(
        WormView { target_length: next.worms[i].target_length, ..s.worms[i] },
        states[i],
        w,
        h,
        next.base_delay_ms,
        now,
    ) by {
        assert((next.worms[i], states[i + 1]) == ticked(
            r.worms[i],
            states[i],
            w,
            h,
            r.base_delay_ms,
            now,
        ));
        assert(r.worms[i] =~= WormView {
            target_length: next.worms[i].target_length,
            ..s.worms[i]
        });
    }
    states
}

/// A frame can be computed on a terminal with a side below four. On any other it can if and only
/// if there is a reading exactly where one is due, its ticks can be measured, the worms whose time
/// has come can move, and there is half a second left on the clock.
pub proof fn lemma_what_a_frame_needs(
    s: StateView,
    w: u16,
    h: u16,
    checked_at: u64,
    reading: Option<ReadingView>,
    now: u64,
)
    requires
        s.worms.len() == s.cpu.curr.len(),
        s.cpu.prev.len() == s.cpu.curr.len(),
    ensures
        w < 4 || h < 4 ==> s.can_step(w, h, checked_at, reading, now),
        w >= 4 && h >= 4 ==> (s.can_step(w, h, checked_at, reading, now) <==> {
            &&& reading is Some <==> checked_at >= s.last_cpu_poll + 500_000_000
            &&& reading matches Some(r) ==> forall|i: int|
                0 <= i < s.worms.len() ==> ticks_fit(
                    #[trigger] s.cpu.advanced(r.stat).prev[i],
                    s.cpu.advanced(r.stat).curr[i],
                )
            &&& forall|i: int|
                0 <= i < s.worms.len() && (#[trigger] s.worms[i]).next_step <= now
                    ==> s.worms[i].can_move(w, h)
            &&& now <= u64::MAX - 500_000_000
        }),
{
    if let Some(r) = reading {
        let cpu = s.cpu.advanced(r.stat);
        if let Some(text) = r.stat {
            lemma_reading_keeps_cpus(s.cpu.prev, lines(text));
        }
        if forall|i: int| 0 <= i < s.worms.len() ==> #[trigger] cpu.measurable(i) {
            assert forall|i: int| 0 <= i < s.worms.len() implies ticks_fit(
                #[trigger] cpu.prev[i],
                cpu.curr[i],
            ) by {
                assert(cpu.measurable(i));
            }
        }
        if forall|i: int|
            0 <= i < s.worms.len() ==> ticks_fit(#[trigger] cpu.prev[i], cpu.curr[i]) {
            assert forall|i: int| 0 <= i < s.worms.len() implies #[trigger] cpu.measurable(i) by {
                assert(ticks_fit(cpu.prev[i], cpu.curr[i]));
            }
        }
    }
}

/// What is said of the screensaver is said of all of it, and of a reading of all of it.
pub proof fn lemma_state_is_seen_whole(s: NetwareState, reading: Reading, i: int)
    ensures
        s@.worms.len() == s.worms@.len(),
        0 <= i < s.worms@.len() ==> s@.worms[i] == s.worms@[i]@,
        s@.rng == s.rng,
        s@.cpu == s.cpu@,
        s@.base_delay_ms == s.base_delay_ms,
        s@.last_cpu_poll == s.last_cpu_poll,
        s@.term_w == s.term_w && s@.term_h == s.term_h,
        reading_of(Some(reading)) == Some(reading@),
        reading_of(None) is None,
        reading@.delay_ms == reading.delay_ms && reading@.taken_at == reading.taken_at,
        reading.stat matches Some(text) ==> reading@.stat == Some(text@),
        reading.stat is None ==> reading@.stat is None,
{
}

/// A well-formed screensaver has one worm per CPU, and each worm as many segments as its length
/// says, from 4 to 36, an aim within the same bounds, and one of eight directions.
pub proof fn lemma_well_formed_state(s: NetwareState, i: int)
    requires
        s.wf(),
        0 <= i < s.worms@.len(),
    ensures
        s.worms@.len() == s.cpu.num_cpus,
        1 <= s.worms@.len() <= 64,
        s.worms@[i].segs@.len() == s.worms@[i].length,
        4 <= s.worms@[i].length <= 36,
        4 <= s.worms@[i].target_length <= 36,
        s.worms@[i].dir < 8,
        10 <= s.base_delay_ms <= 100,
{
    assert(s@.worms[i].wf());
}

} // verus!
