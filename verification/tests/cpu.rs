use cworm::cpu::{CpuSampler, CpuTimes};

const STAT: &str = "cpu  110 20 30 400 50 6 7 8 9 10\n\
                    cpu0 100 10 20 300 40 5 6 7 8 9\n\
                    cpu1 10 10 10 100 10 1 1 1 1 1\n\
                    intr 12345 0 1\n\
                    ctxt 99\n";

fn two_cpus() -> &'static str {
    "processor\t: 0\nmodel name\t: x\n\nprocessor\t: 1\nflags\t: y\n"
}

fn times(v: [u64; 10]) -> CpuTimes {
    CpuTimes {
        user: v[0],
        nice: v[1],
        sys: v[2],
        idle: v[3],
        io: v[4],
        irq: v[5],
        sirq: v[6],
        steal: v[7],
        guest: v[8],
        guest_nice: v[9],
    }
}

fn pair(p: [u64; 10], c: [u64; 10]) -> CpuSampler {
    CpuSampler { num_cpus: 1, prev: vec![times(p)], curr: vec![times(c)] }
}

#[test]
fn detect_counts_processor_lines() {
    assert_eq!(CpuSampler::detect_cpus(two_cpus()), 2);
    assert_eq!(CpuSampler::detect_cpus("processors\nxprocessor\n processor\n"), 1);
}

#[test]
fn detect_finds_at_least_one_and_at_most_64() {
    assert_eq!(CpuSampler::detect_cpus(""), 1);
    assert_eq!(CpuSampler::detect_cpus("model name\t: x\n"), 1);
    assert_eq!(CpuSampler::detect_cpus(&"processor\n".repeat(64)), 64);
    assert_eq!(CpuSampler::detect_cpus(&"processor\n".repeat(65)), 64);
}

#[test]
fn new_primes_both_readings() {
    let s = CpuSampler::new(two_cpus(), Some(STAT));
    assert_eq!(s.num_cpus, 2);
    assert_eq!(s.curr[0], times([100, 10, 20, 300, 40, 5, 6, 7, 8, 9]));
    assert_eq!(s.curr[1], times([10, 10, 10, 100, 10, 1, 1, 1, 1, 1]));
    assert_eq!(s.prev, s.curr);
    assert_eq!(s.util_percent(0), 0);
    assert_eq!(s.util_percent(1), 0);
}

#[test]
fn new_without_a_reading_is_all_zero() {
    let s = CpuSampler::new("", None);
    assert_eq!(s.num_cpus, 1);
    assert_eq!(s.prev, vec![CpuTimes::default()]);
    assert_eq!(s.curr, vec![CpuTimes::default()]);
}

#[test]
fn sample_skips_other_lines() {
    let mut s = CpuSampler::new(two_cpus(), Some(STAT));
    let before = s.curr.clone();
    s.sample(Some("cpu 1 2 3\nintr 5\n cpu0 1\ncpufreq 7\ncpu2 1 1 1\ncpu-1 3\ncpu0x 4\nCPU0 5"));
    assert_eq!(s.curr, before);
}

#[test]
fn sample_fills_in_zeros() {
    let mut s = CpuSampler::new(two_cpus(), Some(STAT));
    s.sample(Some("cpu1 5 x 7"));
    assert_eq!(s.curr[1], times([5, 0, 7, 0, 0, 0, 0, 0, 0, 0]));
    s.sample(Some("cpu0\r\n"));
    assert_eq!(s.curr[0], CpuTimes::default());
}

#[test]
fn sample_takes_odd_spellings_of_a_number() {
    let mut s = CpuSampler::new(two_cpus(), None);
    s.sample(Some("cpu+0 +1\ncpu001 2 99999999999999999999 3 1 2 3 4 5 6 7 8 9"));
    assert_eq!(s.curr[0], times([1, 0, 0, 0, 0, 0, 0, 0, 0, 0]));
    assert_eq!(s.curr[1], times([2, 0, 3, 1, 2, 3, 4, 5, 6, 7]));
}

#[test]
fn last_line_on_a_cpu_counts() {
    let mut s = CpuSampler::new(two_cpus(), None);
    s.sample(Some("cpu0 1\ncpu1 2\ncpu0 3\n"));
    assert_eq!(s.curr[0].user, 3);
    assert_eq!(s.curr[1].user, 2);
}

#[test]
fn failed_reading_changes_nothing() {
    let mut s = CpuSampler::new(two_cpus(), Some(STAT));
    let before = s.curr.clone();
    s.sample(None);
    assert_eq!(s.curr, before);
}

#[test]
fn advance_turns_the_readings_over() {
    let mut s = CpuSampler::new(two_cpus(), Some("cpu0 1\ncpu1 2\n"));
    s.advance(Some("cpu0 10\ncpu1 20\n"));
    assert_eq!((s.prev[0].user, s.curr[0].user), (1, 10));
    s.advance(Some("cpu0 100\n"));
    assert_eq!((s.prev[0].user, s.curr[0].user), (10, 100));
    assert_eq!((s.prev[1].user, s.curr[1].user), (20, 2));
}

#[test]
fn two_failed_readings_cancel() {
    let mut s = CpuSampler::new(two_cpus(), Some("cpu0 1\ncpu1 2\n"));
    s.advance(Some("cpu0 10\ncpu1 20\n"));
    s.advance(None);
    assert_eq!((s.prev[0].user, s.curr[0].user), (10, 1));
    s.advance(None);
    assert_eq!((s.prev[0].user, s.curr[0].user), (1, 10));
}

#[test]
fn utilisation_of_a_mixed_load() {
    let s = pair([0; 10], [30, 5, 10, 40, 5, 3, 2, 5, 0, 0]);
    assert!(s.can_measure(0));
    assert_eq!(s.util_percent(0), 55);
    let s = pair([10, 0, 0, 10, 0, 0, 0, 0, 0, 0], [11, 0, 0, 12, 0, 0, 0, 0, 0, 0]);
    assert_eq!(s.util_percent(0), 33);
}

#[test]
fn idle_and_waiting_are_no_load() {
    assert_eq!(pair([0; 10], [0, 0, 0, 70, 30, 0, 0, 0, 0, 0]).util_percent(0), 0);
    assert_eq!(pair([7; 10], [7; 10]).util_percent(0), 0);
}

#[test]
fn never_idle_is_full_load() {
    assert_eq!(pair([0; 10], [1, 0, 0, 0, 0, 0, 0, 0, 0, 0]).util_percent(0), 100);
    assert_eq!(pair([0; 10], [0, 0, 0, 0, 0, 0, 0, 1, 0, 0]).util_percent(0), 100);
}

#[test]
fn guest_time_counts_once() {
    let s = pair([50, 0, 0, 0, 0, 0, 0, 0, 20, 0], [80, 0, 0, 30, 0, 0, 0, 0, 50, 0]);
    assert_eq!(s.util_percent(0), 50);
    let s = pair([0, 50, 0, 0, 0, 0, 0, 0, 0, 20], [0, 80, 0, 30, 0, 0, 0, 0, 0, 50]);
    assert_eq!(s.util_percent(0), 50);
}

#[test]
fn counters_that_run_backwards_count_as_still() {
    assert_eq!(pair([9; 10], [0; 10]).util_percent(0), 0);
    let s = pair([100, 0, 0, 0, 0, 0, 0, 0, 0, 0], [50, 0, 10, 10, 0, 0, 0, 0, 0, 0]);
    assert_eq!(s.util_percent(0), 50);
}

#[test]
fn unknown_cpu_has_no_load() {
    let s = pair([0; 10], [1; 10]);
    assert!(s.can_measure(1));
    assert_eq!(s.util_percent(1), 0);
}

#[test]
fn sums_beyond_64_bits_cannot_be_measured() {
    let max = u64::MAX;
    assert!(!pair([0; 10], [0, 0, max, 0, 0, 1, 0, 0, 0, 0]).can_measure(0));
    assert!(!pair([0, 0, 0, max, 1, 0, 0, 0, 0, 0], [0; 10]).can_measure(0));
    assert!(!pair([0; 10], [0, 0, 0, 0, 0, 0, 0, 0, max, 1]).can_measure(0));
    assert!(!pair([0; 10], [max, 0, 0, 1, 0, 0, 0, 0, 0, 0]).can_measure(0));
    assert!(!pair([0; 10], [max / 100 + 1, 0, 0, 0, 0, 0, 0, 0, 0, 0]).can_measure(0));
    let s = pair([0; 10], [max / 100, 0, 0, 0, 0, 0, 0, 0, 0, 0]);
    assert!(s.can_measure(0));
    assert_eq!(s.util_percent(0), 100);
    assert!(pair([0; 10], [0, 0, 0, max, 0, 0, 0, 0, 0, 0]).can_measure(0));
}
