//! The load of each CPU, from the tick counters in `/proc/stat`.

use crate::shape::{greater, lesser, MAX_WORMS};
use crate::text::{
    contents, fields, has_prefix, is_space, lemma_digit_value, lemma_first_field,
    lemma_newline_splits_lines, lemma_single_field, lemma_single_line, lemma_space_splits_fields,
    lines, number, parse_number, split_fields, split_lines, starts_with,
};
use vstd::prelude::*;

verus! {

/// The ticks that one CPU has spent in each state since the system started.
#[derive(Clone, Copy, Debug, PartialEq, Eq)]
pub struct CpuTimes {
    pub user: u64,
    pub nice: u64,
    pub sys: u64,
    pub idle: u64,
    pub io: u64,
    pub irq: u64,
    pub sirq: u64,
    pub steal: u64,
    pub guest: u64,
    pub guest_nice: u64,
}

/// Counters that all stand at zero.
pub open spec fn no_times() -> CpuTimes {
    CpuTimes {
        user: 0,
        nice: 0,
        sys: 0,
        idle: 0,
        io: 0,
        irq: 0,
        sirq: 0,
        steal: 0,
        guest: 0,
        guest_nice: 0,
    }
}

impl Default for CpuTimes {
    fn default() -> (r: Self)
        ensures
            r == no_times(),
    {
        CpuTimes {
            user: 0,
            nice: 0,
            sys: 0,
            idle: 0,
            io: 0,
            irq: 0,
            sirq: 0,
            steal: 0,
            guest: 0,
            guest_nice: 0,
        }
    }
}

/// The counter in field `k` of a line; a field that is missing or no number counts as zero.
pub open spec fn counter(f: Seq<Seq<char>>, k: int) -> u64 {
    if k < f.len() {
        match number(f[k]) {
            Some(n) => n,
            None => 0,
        }
    } else {
        0
    }
}

/// The counters in the fields of a line, in the order in which the kernel lists them.
pub open spec fn times_in(f: Seq<Seq<char>>) -> CpuTimes {
    CpuTimes {
        user: counter(f, 1),
        nice: counter(f, 2),
        sys: counter(f, 3),
        idle: counter(f, 4),
        io: counter(f, 5),
        irq: counter(f, 6),
        sirq: counter(f, 7),
        steal: counter(f, 8),
        guest: counter(f, 9),
        guest_nice: counter(f, 10),
    }
}

/// The CPU that a line is about: the number behind `cpu` in its first field. The line of all CPUs
/// together, which has no number, is about none, and so are all other lines.
pub open spec fn cpu_of_line(line: Seq<char>) -> Option<u64> {
    if starts_with(line, "cpu"@) && fields(line)[0] != "cpu"@ {
        number(fields(line)[0].skip(3))
    } else {
        None
    }
}

/// The counters of all CPUs after one line of `/proc/stat` has been read.
pub open spec fn line_read(curr: Seq<CpuTimes>, line: Seq<char>) -> Seq<CpuTimes> {
    match cpu_of_line(line) {
        Some(i) => if i < curr.len() {
            curr.update(i as int, times_in(fields(line)))
        } else {
            curr
        },
        None => curr,
    }
}

/// The counters of all CPUs after the given lines have been read one after the other.
pub open spec fn lines_read(curr: Seq<CpuTimes>, text: Seq<Seq<char>>) -> Seq<CpuTimes>
    decreases text.len(),
{
    if text.len() == 0 {
        curr
    } else {
        line_read(lines_read(curr, text.drop_last()), text.last())
    }
}

/// The counters of all CPUs after `/proc/stat` has been read; where it could not be read, they
/// stay as they are.
pub open spec fn stat_read(curr: Seq<CpuTimes>, stat: Option<Seq<char>>) -> Seq<CpuTimes> {
    match stat {
        Some(text) => lines_read(curr, lines(text)),
        None => curr,
    }
}

/// The contents of an optional text.
pub open spec fn text_of(stat: Option<&str>) -> Option<Seq<char>> {
    match stat {
        Some(text) => Some(text@),
        None => None,
    }
}

/// The number of CPUs that `/proc/cpuinfo` lists, from one to `MAX_WORMS`.
pub open spec fn cpu_count(cpuinfo: Seq<char>) -> int {
    lesser(greater(listed_cpus(cpuinfo), 1), MAX_WORMS as int)
}

/// The number of lines of `/proc/cpuinfo` that are on a CPU.
pub open spec fn listed_cpus(cpuinfo: Seq<char>) -> int {
    lines(cpuinfo).filter(|line: Seq<char>| starts_with(line, "processor"@)).len() as int
}

/// Two successive readings of the counters of each CPU.
pub struct SamplerView {
    pub prev: Seq<CpuTimes>,
    pub curr: Seq<CpuTimes>,
}

impl SamplerView {
    /// Both readings after the first look at `/proc/stat`, on a system with `n` CPUs.
    pub open spec fn first(n: int, stat: Option<Seq<char>>) -> SamplerView {
        let curr = stat_read(Seq::new(n as nat, |i: int| no_times()), stat);
        SamplerView { prev: curr, curr }
    }

    /// The readings after one more look at `/proc/stat` into the same pair of counters.
    pub open spec fn sampled(self, stat: Option<Seq<char>>) -> SamplerView {
        SamplerView { prev: self.prev, curr: stat_read(self.curr, stat) }
    }

    /// The readings after the pair has been turned over and the older one replaced. A CPU that
    /// the new reading leaves out keeps the counters of the older one.
    pub open spec fn advanced(self, stat: Option<Seq<char>>) -> SamplerView {
        SamplerView { prev: self.curr, curr: stat_read(self.prev, stat) }
    }

    /// The share of time that a CPU was busy between the two readings, in percent; zero for a CPU
    /// that is not there.
    pub open spec fn util(self, cpu: int) -> int {
        if 0 <= cpu < self.curr.len() {
            busy_percent(self.prev[cpu], self.curr[cpu])
        } else {
            0
        }
    }

    /// Whether the ticks of a CPU can be added up in 64 bits.
    pub open spec fn measurable(self, cpu: int) -> bool {
        0 <= cpu < self.curr.len() ==> ticks_fit(self.prev[cpu], self.curr[cpu])
    }
}

/// What is left of `a` when `b` is taken away, or zero.
pub open spec fn excess(a: int, b: int) -> int {
    greater(a - b, 0)
}

/// Ticks spent idle or waiting for a device.
pub open spec fn idle_ticks(p: CpuTimes, c: CpuTimes) -> int {
    excess(c.idle + c.io, p.idle + p.io)
}

/// Ticks spent working: for programs, for the kernel, lost to the host and for virtual machines.
/// The counters for programs hold the time of virtual machines too, so it is taken out of them.
pub open spec fn busy_ticks(p: CpuTimes, c: CpuTimes) -> int {
    excess(excess(c.user as int, c.guest as int), excess(p.user as int, p.guest as int)) + excess(
        excess(c.nice as int, c.guest_nice as int),
        excess(p.nice as int, p.guest_nice as int),
    ) + excess(c.sys + c.irq + c.sirq, p.sys + p.irq + p.sirq) + excess(
        c.steal as int,
        p.steal as int,
    ) + excess(c.guest + c.guest_nice, p.guest + p.guest_nice)
}

/// The share of working ticks between two readings, in percent; zero where there were no ticks.
pub open spec fn busy_percent(p: CpuTimes, c: CpuTimes) -> int {
    let total = busy_ticks(p, c) + idle_ticks(p, c);
    if total == 0 {
        0
    } else {
        busy_ticks(p, c) * 100 / total
    }
}

/// Whether every sum on the way to the share of working ticks fits 64 bits.
pub open spec fn ticks_fit(p: CpuTimes, c: CpuTimes) -> bool {
    &&& c.sys + c.irq + c.sirq <= u64::MAX
    &&& p.sys + p.irq + p.sirq <= u64::MAX
    &&& c.idle + c.io <= u64::MAX
    &&& p.idle + p.io <= u64::MAX
    &&& c.guest + c.guest_nice <= u64::MAX
    &&& p.guest + p.guest_nice <= u64::MAX
    &&& busy_ticks(p, c) + idle_ticks(p, c) <= u64::MAX
    &&& busy_ticks(p, c) * 100 <= u64::MAX
}

/// Keeps the two latest readings of the counters of each CPU.
pub struct CpuSampler {
    pub num_cpus: usize,
    pub prev: Vec<CpuTimes>,
    pub curr: Vec<CpuTimes>,
}

impl View for CpuSampler {
    type V = SamplerView;

    open spec fn view(&self) -> SamplerView {
        SamplerView { prev: self.prev@, curr: self.curr@ }
    }
}

impl CpuSampler {
    /// Starts with the CPUs in the text of `/proc/cpuinfo` and a first reading of `/proc/stat`,
    /// which stands for both readings.
    pub fn new(cpuinfo: &str, stat: Option<&str>) -> (r: Self)
        ensures
            r.wf(),
            r.num_cpus == cpu_count(cpuinfo@),
            r@ == SamplerView::first(r.num_cpus as int, text_of(stat)),
    {
        let num_cpus: usize = Self::detect_cpus(cpuinfo);
        let empty: Vec<CpuTimes> = vec![CpuTimes::default(); num_cpus];
        let mut s = CpuSampler { num_cpus, prev: empty.clone(), curr: empty };
        assert(s.curr@ =~= Seq::new(num_cpus as nat, |i: int| no_times()));
        s.sample(stat);
        s.prev = s.curr.clone();
        assert(s.prev@ =~= s.curr@);
        s
    }

    /// Both readings hold every CPU, and there are between one and `MAX_WORMS` of them.
    pub open spec fn wf(&self) -> bool {
        &&& self.prev@.len() == self.num_cpus
        &&& self.curr@.len() == self.num_cpus
        &&& 1 <= self.num_cpus <= MAX_WORMS
    }

    /// Counts the CPUs in the text of `/proc/cpuinfo`.
    pub fn detect_cpus(cpuinfo: &str) -> (r: usize)
        ensures
            r == cpu_count(cpuinfo@),
    {
        let ghost listed = |line: Seq<char>| starts_with(line, "processor"@);
        let text: Vec<Vec<char>> = split_lines(cpuinfo);
        let ghost all = contents(text@);
        let mut count: usize = 0;
        let mut i: usize = 0;
        proof {
            reveal(Seq::filter);
        }
        assert(all.take(0).filter(listed).len() == 0);
        while i < text.len()
            invariant
                i <= text.len(),
                all == contents(text@),
                listed == (|line: Seq<char>| starts_with(line, "processor"@)),
                count == all.take(i as int).filter(listed).len(),
                count <= i,
            decreases text.len() - i,
        {
            proof {
                reveal(Seq::filter);
                assert(all.take(i + 1).drop_last() =~= all.take(i as int));
            }
            if has_prefix(&text[i], "processor") {
                count += 1;
            }
            i += 1;
        }
        assert(all.take(all.len() as int) =~= all);
        count.max(1).min(MAX_WORMS)
    }

    /// Reads the text of `/proc/stat` into the current counters.
    pub fn sample(&mut self, stat: Option<&str>)
        requires
            old(self).wf(),
        ensures
            final(self).wf(),
            final(self).num_cpus == old(self).num_cpus,
            final(self)@ == old(self)@.sampled(text_of(stat)),
    {
        let text: Vec<Vec<char>> = match stat {
            Some(data) => split_lines(data),
            None => {
                return ;
            },
        };
        let ghost all = contents(text@);
        let mut i: usize = 0;
        assert(all.take(0).len() == 0);
        while i < text.len()
            invariant
                i <= text.len(),
                all == contents(text@),
                self.wf(),
                self.num_cpus == old(self).num_cpus,
                self.prev@ == old(self).prev@,
                self.curr@ == lines_read(old(self).curr@, all.take(i as int)),
            decreases text.len() - i,
        {
            assert(all.take(i + 1).drop_last() =~= all.take(i as int));
            self.sample_line(&text[i]);
            i += 1;
        }
        assert(all.take(all.len() as int) =~= all);
    }

    /// Turns the two readings over and reads the text of `/proc/stat` into the current one.
    pub fn advance(&mut self, stat: Option<&str>)
        requires
            old(self).wf(),
        ensures
            final(self).wf(),
            final(self).num_cpus == old(self).num_cpus,
            final(self)@ == old(self)@.advanced(text_of(stat)),
    {
        std::mem::swap(&mut self.prev, &mut self.curr);
        self.sample(stat);
    }

    /// Tells whether the ticks of a CPU between the two readings can be added up in 64 bits.
    pub fn can_measure(&self, cpu: usize) -> (r: bool)
        requires
            self.wf(),
        ensures
            r == self@.measurable(cpu as int),
    {
        if cpu >= self.num_cpus {
            return true;
        }
        let p: &CpuTimes = &self.prev[cpu];
        let c: &CpuTimes = &self.curr[cpu];
        let max: u128 = u64::MAX as u128;
        let c_sys: u128 = c.sys as u128 + c.irq as u128 + c.sirq as u128;
        let p_sys: u128 = p.sys as u128 + p.irq as u128 + p.sirq as u128;
        let c_idle: u128 = c.idle as u128 + c.io as u128;
        let p_idle: u128 = p.idle as u128 + p.io as u128;
        let c_virt: u128 = c.guest as u128 + c.guest_nice as u128;
        let p_virt: u128 = p.guest as u128 + p.guest_nice as u128;
        let du: u64 = c.user.saturating_sub(c.guest).saturating_sub(p.user.saturating_sub(p.guest));
        let dn: u64 = c.nice.saturating_sub(c.guest_nice).saturating_sub(
            p.nice.saturating_sub(p.guest_nice),
        );
        let dst: u64 = c.steal.saturating_sub(p.steal);
        let busy: u128 = du as u128 + dn as u128 + c_sys.saturating_sub(p_sys) + dst as u128
            + c_virt.saturating_sub(p_virt);
        let idle: u128 = c_idle.saturating_sub(p_idle);
        assert(busy == busy_ticks(*p, *c));
        assert(idle == idle_ticks(*p, *c));
        c_sys <= max && p_sys <= max && c_idle <= max && p_idle <= max && c_virt <= max && p_virt
            <= max && busy + idle <= max && busy * 100 <= max
    }

    /// The share of time that a CPU was busy between the two readings, from 0 to 100.
    pub fn util_percent(&self, cpu: usize) -> (r: u64)
        requires
            self.wf(),
            self@.measurable(cpu as int),
        ensures
            r == self@.util(cpu as int),
            r <= 100,
            cpu >= self.num_cpus ==> r == 0,
    {
        if cpu >= self.num_cpus {
            return 0;
        }
        let p: &CpuTimes = &self.prev[cpu];
        let c: &CpuTimes = &self.curr[cpu];
        let du: u64 = c.user.saturating_sub(c.guest).saturating_sub(p.user.saturating_sub(p.guest));
        let dn: u64 = c.nice.saturating_sub(c.guest_nice).saturating_sub(
            p.nice.saturating_sub(p.guest_nice),
        );
        let ds: u64 = (c.sys + c.irq + c.sirq).saturating_sub(p.sys + p.irq + p.sirq);
        let di: u64 = (c.idle + c.io).saturating_sub(p.idle + p.io);
        let dst: u64 = c.steal.saturating_sub(p.steal);
        let dvirt: u64 = (c.guest + c.guest_nice).saturating_sub(p.guest + p.guest_nice);
        assert(du + dn + ds + dst + dvirt == busy_ticks(*p, *c));
        assert(di == idle_ticks(*p, *c));
        let total: u64 = du + dn + ds + di + dst + dvirt;
        if total == 0 {
            return 0;
        }
        proof {
            lemma_busy_percent_bounds(*p, *c);
        }
        total.saturating_sub(di) * 100 / total
    }

    /// Reads one line of `/proc/stat` into the current counters.
    fn sample_line(&mut self, line: &Vec<char>)
        requires
            old(self).wf(),
        ensures
            final(self).wf(),
            final(self).num_cpus == old(self).num_cpus,
            final(self).prev@ == old(self).prev@,
            final(self).curr@ == line_read(old(self).curr@, line@),
    {
        if !has_prefix(line, "cpu") {
            return ;
        }
        let f: Vec<Vec<char>> = split_fields(line);
        proof {
            reveal_strlit("cpu");
            lemma_first_field(line@, "cpu"@);
            assert(contents(f@)[0] == f[0]@);
            assert(f[0]@.take(3) == "cpu"@);
        }
        let tag: &Vec<char> = &f[0];
        if tag.len() == 3 {
            assert(tag@.take(3) =~= tag@);
            return ;
        }
        let idx: u64 = match parse_number(tag, 3) {
            Some(n) => n,
            None => {
                return ;
            },
        };
        if idx >= self.num_cpus as u64 {
            return ;
        }
        let t = CpuTimes {
            user: field_counter(&f, 1),
            nice: field_counter(&f, 2),
            sys: field_counter(&f, 3),
            idle: field_counter(&f, 4),
            io: field_counter(&f, 5),
            irq: field_counter(&f, 6),
            sirq: field_counter(&f, 7),
            steal: field_counter(&f, 8),
            guest: field_counter(&f, 9),
            guest_nice: field_counter(&f, 10),
        };
        self.curr.set(idx as usize, t);
    }
}

/// Reads the counter in field `k` of a line.
fn field_counter(f: &Vec<Vec<char>>, k: usize) -> (r: u64)
    ensures
        r == counter(contents(f@), k as int),
{
    if k < f.len() {
        assert(contents(f@)[k as int] == f[k as int]@);
        assert(f[k as int]@.skip(0) =~= f[k as int]@);
        match parse_number(&f[k], 0) {
            Some(n) => n,
            None => 0,
        }
    } else {
        0
    }
}

/// The load of a CPU lies between 0 and 100 percent.
pub proof fn lemma_busy_percent_bounds(p: CpuTimes, c: CpuTimes)
    ensures
        0 <= busy_percent(p, c) <= 100,
{
    let busy = busy_ticks(p, c);
    let total = busy + idle_ticks(p, c);
    if total > 0 {
        assert(0 <= busy * 100 / total <= 100) by (nonlinear_arith)
            requires
                0 <= busy <= total,
                0 < total,
        ;
    }
}

/// A CPU that only idled, or whose counters stood still, has a load of zero.
pub proof fn lemma_idle_is_zero(p: CpuTimes, c: CpuTimes)
    requires
        busy_ticks(p, c) == 0,
    ensures
        busy_percent(p, c) == 0,
{
    let total = idle_ticks(p, c);
    if total != 0 {
        assert(0int / total == 0) by (nonlinear_arith)
            requires
                0 < total,
        ;
    }
}

/// A CPU that worked and never idled has a load of 100 percent.
pub proof fn lemma_never_idle_is_full(p: CpuTimes, c: CpuTimes)
    requires
        busy_ticks(p, c) > 0,
        idle_ticks(p, c) == 0,
    ensures
        busy_percent(p, c) == 100,
{
    let busy = busy_ticks(p, c);
    assert(busy * 100 / busy == 100) by (nonlinear_arith)
        requires
            0 < busy,
    ;
}

/// Time spent for a virtual machine counts once, though the kernel adds it to two counters.
pub proof fn lemma_guest_time_counts_once(p: CpuTimes, c: CpuTimes, ticks: int)
    requires
        0 <= ticks,
        c.user == p.user + ticks,
        c.guest == p.guest + ticks,
        c == (CpuTimes { user: c.user, guest: c.guest, ..p }),
    ensures
        busy_ticks(p, c) == ticks,
        idle_ticks(p, c) == 0,
{
}

/// Right after the start every load is zero: there has been one reading only.
pub proof fn lemma_first_reading_is_idle(n: int, stat: Option<Seq<char>>, cpu: int)
    ensures
        SamplerView::first(n, stat).util(cpu) == 0,
{
    let s = SamplerView::first(n, stat);
    if 0 <= cpu < s.curr.len() {
        lemma_idle_is_zero(s.prev[cpu], s.curr[cpu]);
    }
}

/// The line of all CPUs together changes nothing, and neither does a line on anything else.
pub proof fn lemma_other_lines_are_skipped(curr: Seq<CpuTimes>, line: Seq<char>)
    requires
        !starts_with(line, "cpu"@) || fields(line)[0] == "cpu"@,
    ensures
        line_read(curr, line) == curr,
{
}

/// A line on one CPU leaves the counters of all other CPUs alone.
pub proof fn lemma_line_touches_one_cpu(curr: Seq<CpuTimes>, line: Seq<char>, other: int)
    requires
        0 <= other < curr.len(),
        cpu_of_line(line) != Some(other as u64),
    ensures
        line_read(curr, line).len() == curr.len(),
        line_read(curr, line)[other] == curr[other],
{
}

/// Reading keeps the number of CPUs.
pub proof fn lemma_reading_keeps_cpus(curr: Seq<CpuTimes>, text: Seq<Seq<char>>)
    ensures
        lines_read(curr, text).len() == curr.len(),
    decreases text.len(),
{
    if text.len() > 0 {
        lemma_reading_keeps_cpus(curr, text.drop_last());
    }
}

/// Of several lines on the same CPU the last one counts.
pub proof fn lemma_last_line_counts(curr: Seq<CpuTimes>, text: Seq<Seq<char>>, k: int, cpu: u64)
    requires
        cpu < curr.len(),
        0 <= k < text.len(),
        cpu_of_line(text[k]) == Some(cpu),
        forall|j: int| k < j < text.len() ==> cpu_of_line(#[trigger] text[j]) != Some(cpu),
    ensures
        lines_read(curr, text)[cpu as int] == times_in(fields(text[k])),
    decreases text.len(),
{
    lemma_reading_keeps_cpus(curr, text.drop_last());
    if k < text.len() - 1 {
        assert(text.drop_last()[k] == text[k]);
        assert forall|j: int| k < j < text.drop_last().len() implies cpu_of_line(
            #[trigger] text.drop_last()[j],
        ) != Some(cpu) by {
            assert(text.drop_last()[j] == text[j]);
        }
        lemma_last_line_counts(curr, text.drop_last(), k, cpu);
        assert(cpu_of_line(text[text.len() - 1]) != Some(cpu));
    }
}

/// A CPU that no line is about keeps its counters.
pub proof fn lemma_unlisted_cpu_is_kept(curr: Seq<CpuTimes>, text: Seq<Seq<char>>, cpu: u64)
    requires
        cpu < curr.len(),
        forall|j: int| 0 <= j < text.len() ==> cpu_of_line(#[trigger] text[j]) != Some(cpu),
    ensures
        lines_read(curr, text)[cpu as int] == curr[cpu as int],
    decreases text.len(),
{
    lemma_reading_keeps_cpus(curr, text);
    if text.len() > 0 {
        assert forall|j: int| 0 <= j < text.drop_last().len() implies cpu_of_line(
            #[trigger] text.drop_last()[j],
        ) != Some(cpu) by {
            assert(text.drop_last()[j] == text[j]);
        }
        lemma_reading_keeps_cpus(curr, text.drop_last());
        lemma_unlisted_cpu_is_kept(curr, text.drop_last(), cpu);
        assert(cpu_of_line(text[text.len() - 1]) != Some(cpu));
    }
}

/// Two failed readings in a row leave the sampler as it was.
pub proof fn lemma_failed_readings_cancel(s: SamplerView)
    ensures
        s.advanced(None).advanced(None) == s,
{
}

/// Only what the counters gained between two readings matters. Where every counter grows, the
/// time of virtual machines is held within that of programs, `busy` ticks were gained by programs,
/// the kernel and the host together, and `idle` ticks by idling and waiting, the load is the share
/// of `busy` in both, in whole percent.
pub proof fn lemma_load_is_share_of_gains(p: CpuTimes, c: CpuTimes, busy: int, idle: int)
    requires
        p.user <= c.user,
        p.nice <= c.nice,
        p.sys <= c.sys,
        p.idle <= c.idle,
        p.io <= c.io,
        p.irq <= c.irq,
        p.sirq <= c.sirq,
        p.steal <= c.steal,
        p.guest <= c.guest,
        p.guest_nice <= c.guest_nice,
        p.guest <= p.user,
        p.guest_nice <= p.nice,
        c.guest - p.guest <= c.user - p.user,
        c.guest_nice - p.guest_nice <= c.nice - p.nice,
        busy == (c.user - p.user) + (c.nice - p.nice) + (c.sys - p.sys) + (c.irq - p.irq) + (c.sirq
            - p.sirq) + (c.steal - p.steal),
        idle == (c.idle - p.idle) + (c.io - p.io),
    ensures
        busy + idle > 0 ==> busy_percent(p, c) == busy * 100 / (busy + idle),
        busy + idle == 0 ==> busy_percent(p, c) == 0,
{
    assert(busy_ticks(p, c) == busy);
    assert(idle_ticks(p, c) == idle);
}

/// What `new` has over `old`, if anything, is `gain`.
pub open spec fn is_gain(gain: int, new: int, old: int) -> bool {
    gain >= 0 && gain >= new - old && (gain == 0 || gain == new - old)
}

/// The load for any two readings, counters that ran backwards included: each of the six kinds of
/// time counts by what it gained, or not at all. `user` and `nice` are what programs gained
/// beside virtual machines, whose own time was `user_old`, `user_new`, `nice_old` and `nice_new`
/// at the two readings.
pub proof fn lemma_load_of_any_readings(
    p: CpuTimes,
    c: CpuTimes,
    user_old: int,
    user_new: int,
    nice_old: int,
    nice_new: int,
    user: int,
    nice: int,
    kernel: int,
    idle: int,
    host: int,
    guests: int,
)
    requires
        is_gain(user_old, p.user as int, p.guest as int),
        is_gain(user_new, c.user as int, c.guest as int),
        is_gain(nice_old, p.nice as int, p.guest_nice as int),
        is_gain(nice_new, c.nice as int, c.guest_nice as int),
        is_gain(user, user_new, user_old),
        is_gain(nice, nice_new, nice_old),
        is_gain(kernel, c.sys + c.irq + c.sirq, p.sys + p.irq + p.sirq),
        is_gain(idle, c.idle + c.io, p.idle + p.io),
        is_gain(host, c.steal as int, p.steal as int),
        is_gain(guests, c.guest + c.guest_nice, p.guest + p.guest_nice),
    ensures
        ({
            let busy = user + nice + kernel + host + guests;
            let load = busy_percent(p, c);
            &&& busy + idle == 0 ==> load == 0
            &&& busy + idle > 0 ==> load * (busy + idle) <= 100 * busy < (load + 1) * (busy + idle)
        }),
{
    let busy = user + nice + kernel + host + guests;
    let total = busy + idle;
    assert(busy_ticks(p, c) == busy);
    assert(idle_ticks(p, c) == idle);
    if total > 0 {
        let load = busy_percent(p, c);
        assert(load * total <= 100 * busy < (load + 1) * total) by (nonlinear_arith)
            requires
                load == busy * 100 / total,
                0 < total,
        ;
    }
}

/// The load does not depend on how long the system has been up: counters that all start from
/// other values and gain the same ticks give the same load.
pub proof fn lemma_load_ignores_the_past(p: CpuTimes, c: CpuTimes, q: CpuTimes, d: CpuTimes)
    requires
        p.guest <= p.user,
        c.guest <= c.user,
        p.guest_nice <= p.nice,
        c.guest_nice <= c.nice,
        q.guest <= q.user,
        d.guest <= d.user,
        q.guest_nice <= q.nice,
        d.guest_nice <= d.nice,
        d.user - q.user == c.user - p.user,
        d.nice - q.nice == c.nice - p.nice,
        d.sys - q.sys == c.sys - p.sys,
        d.idle - q.idle == c.idle - p.idle,
        d.io - q.io == c.io - p.io,
        d.irq - q.irq == c.irq - p.irq,
        d.sirq - q.sirq == c.sirq - p.sirq,
        d.steal - q.steal == c.steal - p.steal,
        d.guest - q.guest == c.guest - p.guest,
        d.guest_nice - q.guest_nice == c.guest_nice - p.guest_nice,
    ensures
        busy_percent(q, d) == busy_percent(p, c),
{
    assert(busy_ticks(q, d) == busy_ticks(p, c));
    assert(idle_ticks(q, d) == idle_ticks(p, c));
}

/// Counters below 2^54 can always be measured.
pub proof fn lemma_ordinary_counters_can_be_measured(p: CpuTimes, c: CpuTimes)
    requires
        c.user < 0x40_0000_0000_0000,
        c.nice < 0x40_0000_0000_0000,
        c.sys < 0x40_0000_0000_0000,
        c.idle < 0x40_0000_0000_0000,
        c.io < 0x40_0000_0000_0000,
        c.irq < 0x40_0000_0000_0000,
        c.sirq < 0x40_0000_0000_0000,
        c.steal < 0x40_0000_0000_0000,
        c.guest < 0x40_0000_0000_0000,
        c.guest_nice < 0x40_0000_0000_0000,
        p.sys < 0x40_0000_0000_0000,
        p.idle < 0x40_0000_0000_0000,
        p.io < 0x40_0000_0000_0000,
        p.irq < 0x40_0000_0000_0000,
        p.sirq < 0x40_0000_0000_0000,
        p.guest < 0x40_0000_0000_0000,
        p.guest_nice < 0x40_0000_0000_0000,
    ensures
        ticks_fit(p, c),
{
}

/// Where every counter grows and no virtual machine runs, the ticks can be measured if and only
/// if the sums that are formed of them fit 64 bits.
pub proof fn lemma_what_can_be_measured(p: CpuTimes, c: CpuTimes, busy: int, idle: int)
    requires
        p.user <= c.user,
        p.nice <= c.nice,
        p.sys <= c.sys,
        p.idle <= c.idle,
        p.io <= c.io,
        p.irq <= c.irq,
        p.sirq <= c.sirq,
        p.steal <= c.steal,
        p.guest == 0 && c.guest == 0 && p.guest_nice == 0 && c.guest_nice == 0,
        busy == (c.user - p.user) + (c.nice - p.nice) + (c.sys - p.sys) + (c.irq - p.irq) + (c.sirq
            - p.sirq) + (c.steal - p.steal),
        idle == (c.idle - p.idle) + (c.io - p.io),
    ensures
        ticks_fit(p, c) <==> c.sys + c.irq + c.sirq < 0x1_0000_0000_0000_0000 && c.idle + c.io
            < 0x1_0000_0000_0000_0000 && busy + idle < 0x1_0000_0000_0000_0000 && busy * 100
            < 0x1_0000_0000_0000_0000,
{
    assert(busy_ticks(p, c) == busy);
    assert(idle_ticks(p, c) == idle);
}

/// The load of a CPU is that of its own counters, whatever the other CPUs did; a CPU that is not
/// there has none.
pub proof fn lemma_load_is_of_own_counters(s: SamplerView, i: int, p: CpuTimes, c: CpuTimes)
    requires
        s.prev.len() == s.curr.len(),
    ensures
        0 <= i < s.curr.len() && s.prev[i] == p && s.curr[i] == c ==> s.util(i) == busy_percent(
            p,
            c,
        ),
        0 <= i < s.curr.len() && s.prev[i] == p && s.curr[i] == c ==> (s.measurable(i)
            <==> ticks_fit(p, c)),
        i >= s.curr.len() ==> s.util(i) == 0 && s.measurable(i),
{
}

/// A line whose first field is `cpu` and a number that is one of the CPUs sets the counters of
/// that CPU to the numbers in the fields that follow, in their order: programs, nice programs,
/// kernel, idle, waiting, two kinds of interrupts, host, guests and nice guests. A field that is
/// missing or is no number counts as zero.
pub proof fn lemma_fields_set_counters(
    curr: Seq<CpuTimes>,
    line: Seq<char>,
    tag: Seq<char>,
    cpu: u64,
    v: Seq<u64>,
)
    requires
        starts_with(line, "cpu"@),
        fields(line)[0] == "cpu"@ + tag,
        number(tag) == Some(cpu),
        cpu < curr.len(),
        v.len() == 10,
        forall|k: int|
            0 <= k < 10 ==> #[trigger] v[k] == if k + 1 < fields(line).len() && number(
                fields(line)[k + 1],
            ) is Some {
                number(fields(line)[k + 1])->0
            } else {
                0
            },
    ensures
        line_read(curr, line) == curr.update(
            cpu as int,
            CpuTimes {
                user: v[0],
                nice: v[1],
                sys: v[2],
                idle: v[3],
                io: v[4],
                irq: v[5],
                sirq: v[6],
                steal: v[7],
                guest: v[8],
                guest_nice: v[9],
            },
        ),
{
    reveal_strlit("cpu");
    let f = fields(line);
    lemma_digit_value('0');
    assert(tag.len() > 0) by {
        if tag.len() == 0 {
            assert(tag =~= Seq::empty());
        }
    }
    assert(f[0].len() != 3);
    assert(f[0].skip(3) =~= tag);
    assert(v[0] == counter(f, 1));
    assert(v[1] == counter(f, 2));
    assert(v[2] == counter(f, 3));
    assert(v[3] == counter(f, 4));
    assert(v[4] == counter(f, 5));
    assert(v[5] == counter(f, 6));
    assert(v[6] == counter(f, 7));
    assert(v[7] == counter(f, 8));
    assert(v[8] == counter(f, 9));
    assert(v[9] == counter(f, 10));
}

/// A line that reads `cpu`, a number, white space and more has that number and the fields of the
/// rest.
pub proof fn lemma_written_line_is_read(
    curr: Seq<CpuTimes>,
    tag: Seq<char>,
    space: char,
    rest: Seq<char>,
    cpu: u64,
    v: Seq<u64>,
)
    requires
        forall|k: int| 0 <= k < tag.len() ==> !is_space(#[trigger] tag[k]),
        number(tag) == Some(cpu),
        is_space(space),
        cpu < curr.len(),
        v.len() == 10,
        forall|k: int|
            0 <= k < 10 ==> #[trigger] v[k] == if k < fields(rest).len() && number(
                fields(rest)[k],
            ) is Some {
                number(fields(rest)[k])->0
            } else {
                0
            },
    ensures
        line_read(curr, ("cpu"@ + tag).push(space) + rest) == curr.update(
            cpu as int,
            CpuTimes {
                user: v[0],
                nice: v[1],
                sys: v[2],
                idle: v[3],
                io: v[4],
                irq: v[5],
                sirq: v[6],
                steal: v[7],
                guest: v[8],
                guest_nice: v[9],
            },
        ),
{
    reveal_strlit("cpu");
    let word = "cpu"@ + tag;
    let line = word.push(space) + rest;
    assert forall|k: int| 0 <= k < word.len() implies !is_space(#[trigger] word[k]) by {
        if k >= 3 {
            assert(word[k] == tag[k - 3]);
        }
    }
    lemma_single_field(word);
    lemma_space_splits_fields(word, space, rest);
    assert(line.take(3) =~= "cpu"@);
    assert forall|k: int| 0 <= k < 10 implies #[trigger] v[k] == if k + 1 < fields(line).len()
        && number(fields(line)[k + 1]) is Some {
        number(fields(line)[k + 1])->0
    } else {
        0
    } by {
        if k < fields(rest).len() {
            assert(fields(line)[k + 1] == fields(rest)[k]);
        }
    }
    lemma_fields_set_counters(curr, line, tag, cpu, v);
}

/// A line whose first field is `cpu` and something that is no number, or the number of a CPU that
/// is not there, changes nothing.
pub proof fn lemma_unknown_cpu_is_skipped(curr: Seq<CpuTimes>, line: Seq<char>, tag: Seq<char>)
    requires
        starts_with(line, "cpu"@),
        fields(line)[0] == "cpu"@ + tag,
        number(tag) matches Some(n) ==> n >= curr.len(),
    ensures
        line_read(curr, line) == curr,
{
    reveal_strlit("cpu");
    assert(fields(line)[0].skip(3) =~= tag);
}

/// A reading is taken line by line, from the first to the last; where there is none, the counters
/// stay as they are.
pub proof fn lemma_reading_goes_line_by_line(
    curr: Seq<CpuTimes>,
    text: Seq<char>,
    line: Seq<char>,
)
    requires
        forall|i: int| 0 <= i < line.len() ==> #[trigger] line[i] != '\n',
    ensures
        stat_read(curr, Some(line)) == line_read(curr, line),
        stat_read(curr, Some(text.push('\n') + line)) == line_read(
            stat_read(curr, Some(text)),
            line,
        ),
        stat_read(curr, None) == curr,
{
    lemma_single_line(line);
    lemma_newline_splits_lines(text, line);
    let one = seq![line];
    assert(one.drop_last() =~= Seq::empty());
    assert(lines_read(curr, one.drop_last()) == curr);
    let all = lines(text) + one;
    assert(all.drop_last() =~= lines(text));
}

/// Each look makes the newer reading the older one. The newer reading of a CPU is then what the
/// last line on it says; a CPU that no line is on, or of which nothing could be read, falls back
/// on the older reading.
pub proof fn lemma_advance_replaces_older_reading(
    s: SamplerView,
    text: Seq<char>,
    k: int,
    cpu: u64,
)
    requires
        cpu < s.prev.len(),
        s.prev.len() == s.curr.len(),
    ensures
        s.advanced(Some(text)).prev == s.curr,
        s.advanced(None).prev == s.curr,
        s.advanced(None).curr == s.prev,
        s.advanced(Some(text)).curr.len() == s.curr.len(),
        0 <= k < lines(text).len() && cpu_of_line(lines(text)[k]) == Some(cpu) && (forall|j: int|
            k < j < lines(text).len() ==> cpu_of_line(#[trigger] lines(text)[j]) != Some(cpu))
            ==> s.advanced(Some(text)).curr[cpu as int] == times_in(fields(lines(text)[k])),
        (forall|j: int|
            0 <= j < lines(text).len() ==> cpu_of_line(#[trigger] lines(text)[j]) != Some(cpu))
            ==> s.advanced(Some(text)).curr[cpu as int] == s.prev[cpu as int],
{
    lemma_reading_keeps_cpus(s.prev, lines(text));
    if forall|j: int|
        0 <= j < lines(text).len() ==> cpu_of_line(#[trigger] lines(text)[j]) != Some(cpu) {
        lemma_unlisted_cpu_is_kept(s.prev, lines(text), cpu);
    }
    if 0 <= k < lines(text).len() && cpu_of_line(lines(text)[k]) == Some(cpu) && (forall|j: int|
        k < j < lines(text).len() ==> cpu_of_line(#[trigger] lines(text)[j]) != Some(cpu)) {
        lemma_last_line_counts(s.prev, lines(text), k, cpu);
    }
}

/// The first look stands for both readings, and counters that it does not give are zero.
pub proof fn lemma_first_reading_starts_from_zero(n: int, text: Seq<char>, cpu: u64)
    requires
        cpu < n,
    ensures
        SamplerView::first(n, Some(text)).prev == SamplerView::first(n, Some(text)).curr,
        SamplerView::first(n, Some(text)).curr.len() == n,
        SamplerView::first(n, None).curr.len() == n,
        SamplerView::first(n, None).prev == SamplerView::first(n, None).curr,
        SamplerView::first(n, None).curr[cpu as int] == (CpuTimes {
            user: 0,
            nice: 0,
            sys: 0,
            idle: 0,
            io: 0,
            irq: 0,
            sirq: 0,
            steal: 0,
            guest: 0,
            guest_nice: 0,
        }),
        SamplerView::first(n, Some(text)).curr == stat_read(
            SamplerView::first(n, None).curr,
            Some(text),
        ),
{
    lemma_reading_keeps_cpus(Seq::new(n as nat, |i: int| no_times()), lines(text));
}

/// Every line that starts with `processor` counts as one CPU, and no other line does.
pub proof fn lemma_listed_cpus_count_lines(text: Seq<char>, line: Seq<char>)
    requires
        forall|i: int| 0 <= i < line.len() ==> #[trigger] line[i] != '\n',
    ensures
        listed_cpus(text.push('\n') + line) == listed_cpus(text) + listed_cpus(line),
        starts_with(line, "processor"@) ==> listed_cpus(line) == 1,
        !starts_with(line, "processor"@) ==> listed_cpus(line) == 0,
{
    let listed = |line: Seq<char>| starts_with(line, "processor"@);
    lemma_single_line(line);
    lemma_newline_splits_lines(text, line);
    Seq::filter_distributes_over_add(lines(text), lines(line), listed);
    let one = seq![line];
    reveal(Seq::filter);
    assert(one.drop_last() =~= Seq::empty());
    assert(one.drop_last().filter(listed).len() == 0);
}

/// There is a worm for every CPU that is listed, but at least one and at most 64.
pub proof fn lemma_cpu_count_bounds(text: Seq<char>)
    ensures
        listed_cpus(text) < 1 ==> cpu_count(text) == 1,
        1 <= listed_cpus(text) <= 64 ==> cpu_count(text) == listed_cpus(text),
        listed_cpus(text) > 64 ==> cpu_count(text) == 64,
{
}

/// Any two readings can be measured if and only if the sums of kernel, idle and guest ticks at
/// each of them, all that was gained together, and a hundred times what was gained by work fit
/// 64 bits.
pub proof fn lemma_what_any_readings_need(
    p: CpuTimes,
    c: CpuTimes,
    user_old: int,
    user_new: int,
    nice_old: int,
    nice_new: int,
    user: int,
    nice: int,
    kernel: int,
    idle: int,
    host: int,
    guests: int,
)
    requires
        is_gain(user_old, p.user as int, p.guest as int),
        is_gain(user_new, c.user as int, c.guest as int),
        is_gain(nice_old, p.nice as int, p.guest_nice as int),
        is_gain(nice_new, c.nice as int, c.guest_nice as int),
        is_gain(user, user_new, user_old),
        is_gain(nice, nice_new, nice_old),
        is_gain(kernel, c.sys + c.irq + c.sirq, p.sys + p.irq + p.sirq),
        is_gain(idle, c.idle + c.io, p.idle + p.io),
        is_gain(host, c.steal as int, p.steal as int),
        is_gain(guests, c.guest + c.guest_nice, p.guest + p.guest_nice),
    ensures
        ticks_fit(p, c) <==> {
            &&& c.sys + c.irq + c.sirq <= u64::MAX
            &&& p.sys + p.irq + p.sirq <= u64::MAX
            &&& c.idle + c.io <= u64::MAX
            &&& p.idle + p.io <= u64::MAX
            &&& c.guest + c.guest_nice <= u64::MAX
            &&& p.guest + p.guest_nice <= u64::MAX
            &&& user + nice + kernel + host + guests + idle <= u64::MAX
            &&& 100 * (user + nice + kernel + host + guests) <= u64::MAX
        },
{
    assert(busy_ticks(p, c) == user + nice + kernel + host + guests);
    assert(idle_ticks(p, c) == idle);
}

/// What is said of a sampler is said of all of its counters, and of a text of all of it.
pub proof fn lemma_sampler_is_seen_whole(s: CpuSampler, text: &str)
    ensures
        s@.prev == s.prev@,
        s@.curr == s.curr@,
        s.wf() ==> s.prev@.len() == s.num_cpus && s.curr@.len() == s.num_cpus && 1 <= s.num_cpus
            <= 64,
        text_of(Some(text)) == Some(text@),
        text_of(None) is None,
{
}

} // verus!
