use cworm::state::{NetwareState, Reading};

const CPUINFO: &str = "processor\t: 0\nprocessor\t: 1\n";
const IDLE: &str = "cpu 0\ncpu0 0\ncpu1 0\n";
/// Full load on the first CPU, half load on the second one.
const BUSY: &str = "cpu 15\ncpu0 10\ncpu1 5 0 0 5\n";

const MS: u64 = 1_000_000;

fn fresh() -> NetwareState {
    NetwareState::new(80, 24, Some(42), CPUINFO, Some(IDLE), 1000)
}

fn reading(stat: Option<&str>, delay_ms: u64, taken_at: u64) -> Option<Reading> {
    Some(Reading { stat: stat.map(|s| s.to_string()), delay_ms, taken_at })
}

fn step(s: &mut NetwareState, w: u16, h: u16, checked_at: u64, r: Option<Reading>, now: u64) {
    assert!(s.can_step(w, h, checked_at, &r, now));
    s.step(w, h, checked_at, r, now);
}

fn segs(s: &NetwareState, i: usize) -> Vec<(u16, u16)> {
    s.worms[i].segs.iter().copied().collect()
}

#[test]
fn one_worm_per_cpu() {
    let s = fresh();
    assert_eq!(s.worms.len(), 2);
    assert_eq!(s.cpu.num_cpus, 2);
    assert_eq!(segs(&s, 0), vec![(40, 6); 4]);
    assert_eq!(segs(&s, 1), vec![(66, 15); 4]);
    assert_eq!((s.worms[0].dir, s.worms[1].dir), (4, 0));
    assert_eq!(s.rng, 483838003013946848);
    assert_eq!(s.base_delay_ms, 100);
    assert_eq!(s.last_cpu_poll, 1000);
    assert_eq!((s.term_w, s.term_h), (80, 24));
    let none = NetwareState::new(80, 24, Some(42), "", None, 0);
    assert_eq!(none.worms.len(), 1);
    let many = NetwareState::new(80, 24, Some(42), &"processor\n".repeat(100), None, 0);
    assert_eq!(many.worms.len(), 64);
}

#[test]
fn clock_before_the_epoch_has_a_fixed_seed() {
    let s = NetwareState::new(80, 24, None, "", None, 0);
    assert_eq!(segs(&s, 0), vec![(24, 8); 4]);
    assert_eq!(s.worms[0].dir, 2);
    assert_eq!(s.rng, 5313634001624593967);
}

#[test]
fn first_frame_moves_all_worms() {
    let mut s = fresh();
    step(&mut s, 80, 24, 1000, None, 1000);
    assert_eq!(segs(&s, 0), vec![(40, 5), (40, 6), (40, 6), (40, 6)]);
    assert_eq!(segs(&s, 1), vec![(66, 16), (66, 15), (66, 15), (66, 15)]);
    assert_eq!(s.worms[0].next_step, 1000 + 400 * MS);
    assert_eq!(s.worms[1].next_step, 1000 + 400 * MS);
    assert_eq!((s.worms[0].runlength, s.worms[1].runlength), (3, 3));
    assert_eq!(s.rng, 2812299150962093586);
}

#[test]
fn early_worms_keep_still() {
    let mut s = fresh();
    step(&mut s, 80, 24, 1000, None, 1000);
    step(&mut s, 80, 24, 2000, None, 400 * MS);
    assert_eq!(segs(&s, 0)[0], (40, 5));
    assert_eq!(s.rng, 2812299150962093586);
    step(&mut s, 80, 24, 2000, None, 1000 + 400 * MS);
    assert_eq!(segs(&s, 0)[0], (40, 4));
}

#[test]
fn load_sets_targets_and_delay() {
    let mut s = fresh();
    step(&mut s, 80, 24, 1000, None, 1000);
    let now = 600 * MS;
    step(&mut s, 80, 24, now, reading(Some(BUSY), 50, now), now);
    assert_eq!(s.base_delay_ms, 50);
    assert_eq!(s.last_cpu_poll, now);
    assert_eq!((s.worms[0].target_length, s.worms[1].target_length), (18, 4));
    assert_eq!((s.worms[0].length, s.worms[1].length), (5, 4));
    assert_eq!(segs(&s, 0), vec![(40, 4), (40, 5), (40, 6), (40, 6), (40, 6)]);
    assert_eq!(s.worms[0].next_step, 800 * MS);
    assert_eq!(s.rng, 457466634992928148);
}

#[test]
fn long_run_ends_where_expected() {
    let mut s = fresh();
    step(&mut s, 80, 24, 1000, None, 1000);
    let start = 600 * MS;
    step(&mut s, 80, 24, start, reading(Some(BUSY), 50, start), start);
    let mut now = start;
    for _ in 0..400 {
        now += 16 * MS;
        step(&mut s, 80, 24, start, None, now);
        for worm in &s.worms {
            assert_eq!(worm.segs.len(), worm.length);
            assert!(worm.segs.iter().all(|&(x, y)| x <= 78 && y <= 23));
        }
    }
    assert_eq!(s.rng, 17138096969591000607);
    assert_eq!((s.worms[0].length, s.worms[0].dir, s.worms[0].runlength), (18, 5, 5));
    assert_eq!(segs(&s, 0)[..4], [(28, 21), (29, 22), (30, 23), (29, 23)]);
    assert_eq!(segs(&s, 0)[17], (15, 9));
    assert_eq!(s.worms[0].next_step, 7034 * MS);
    assert_eq!(segs(&s, 1), vec![(58, 16), (58, 17), (58, 18), (58, 19)]);
    assert_eq!((s.worms[1].dir, s.worms[1].next_step), (4, 7040 * MS));
}

#[test]
fn delays_from_readings_are_clamped() {
    for (given, kept) in [(0, 10), (10, 10), (73, 73), (100, 100), (1000, 100)] {
        let mut s = fresh();
        step(&mut s, 80, 24, 600 * MS, reading(None, given, 0), 600 * MS);
        assert_eq!(s.base_delay_ms, kept);
    }
}

#[test]
fn worms_shrink_one_segment_at_a_time() {
    let mut s = fresh();
    step(&mut s, 80, 24, 600 * MS, reading(Some(BUSY), 10, 600 * MS), 600 * MS);
    let mut now = 600 * MS;
    for _ in 0..20 {
        now += 50 * MS;
        step(&mut s, 80, 24, 600 * MS, None, now);
    }
    assert_eq!(s.worms[0].length, 18);
    let idle = "cpu0 10 0 0 9\ncpu1 5 0 0 50\n";
    now += 500 * MS;
    step(&mut s, 80, 24, now, reading(Some(idle), 10, now), now);
    assert_eq!(s.worms[0].target_length, 4);
    assert_eq!(s.worms[0].length, 17);
    assert_eq!(s.worms[0].segs.len(), 17);
    step(&mut s, 80, 24, now, None, now + 50 * MS);
    assert_eq!(s.worms[0].length, 16);
}

#[test]
fn busier_worms_move_more_often() {
    let mut s = fresh();
    step(&mut s, 80, 24, 600 * MS, reading(Some(BUSY), 10, 600 * MS), 600 * MS);
    let mut moves = [0, 0];
    for t in 0..3000 {
        let before = [s.worms[0].next_step, s.worms[1].next_step];
        step(&mut s, 80, 24, 600 * MS, None, (601 + t) * MS);
        for i in 0..2 {
            if s.worms[i].next_step != before[i] {
                moves[i] += 1;
            }
        }
    }
    assert!(moves[0] > 3 * moves[1]);
}

#[test]
fn small_terminals_stop_everything() {
    for (w, h) in [(3, 24), (80, 3), (0, 0)] {
        let mut s = fresh();
        assert!(!s.poll_due(w, h, 900 * MS));
        step(&mut s, w, h, 900 * MS, None, 900 * MS);
        assert_eq!(segs(&s, 0), vec![(40, 6); 4]);
        assert_eq!((s.term_w, s.term_h), (80, 24));
        assert_eq!(s.rng, fresh().rng);
    }
    let mut s = fresh();
    step(&mut s, 4, 4, 1000, None, 1000);
    assert_eq!((s.term_w, s.term_h), (4, 4));
    assert_eq!(segs(&s, 0)[0], (2, 3));
}

#[test]
fn polls_are_half_a_second_apart() {
    let mut s = fresh();
    assert!(!s.poll_due(80, 24, 0));
    assert!(!s.poll_due(80, 24, 1000));
    assert!(!s.poll_due(80, 24, 999 + 500 * MS));
    assert!(s.poll_due(80, 24, 1000 + 500 * MS));
    step(&mut s, 80, 24, 600 * MS, reading(None, 100, 601 * MS), 602 * MS);
    assert!(!s.poll_due(80, 24, 1100 * MS));
    assert!(s.poll_due(80, 24, 1101 * MS));
}

#[test]
fn readings_belong_to_due_polls_only() {
    let s = fresh();
    assert!(!s.can_step(80, 24, 2000, &reading(None, 100, 2000), 2000));
    assert!(!s.can_step(80, 24, 600 * MS, &None, 600 * MS));
}

#[test]
fn overflowing_ticks_are_refused() {
    let s = fresh();
    let huge = "cpu1 0 0 18446744073709551615 0 0 1\n";
    assert!(!s.can_step(80, 24, 600 * MS, &reading(Some(huge), 50, 0), 600 * MS));
    let absent = "cpu7 0 0 18446744073709551615 0 0 1\n";
    assert!(s.can_step(80, 24, 600 * MS, &reading(Some(absent), 50, 0), 600 * MS));
}

#[test]
fn overflowing_coordinates_and_clocks_are_refused() {
    let s = fresh();
    assert!(!s.can_step(32768, 24, 1000, &None, 1000));
    assert!(s.can_step(32767, 32767, 1000, &None, 1000));
    assert!(s.can_step(32768, 24, 1000, &None, 999));
    assert!(!s.can_step(80, 24, 1000, &None, u64::MAX));
}
