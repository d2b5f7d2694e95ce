use cworm::worm::{can_move, mk_worm, step_worm, Worm};

/// Generator states whose next number, modulo 128, has the value in the name.
const NEXT_IS_126: u64 = 1;
const NEXT_IS_51: u64 = 0;
const NEXT_IS_0: u64 = 25;
const NEXT_IS_1: u64 = 37;
const NEXT_IS_2: u64 = 49;
const NEXT_IS_90: u64 = 81;

fn worm(x: u16, y: u16, dir: u8, runlength: u16) -> Worm {
    Worm {
        segs: [(x, y), (30, 10), (32, 10), (34, 10)].into_iter().collect(),
        dir,
        length: 4,
        target_length: 4,
        runlength,
        next_step: 7,
    }
}

/// Steps on a terminal of 80 columns and 24 rows, and tells the new head and direction.
fn stepped(x: u16, y: u16, dir: u8) -> ((u16, u16), u8) {
    let mut w = worm(x, y, dir, 3);
    let mut rng = NEXT_IS_51;
    assert!(can_move(&w, 80, 24));
    step_worm(&mut w, 80, 24, &mut rng);
    (w.segs[0], w.dir)
}

fn turned(runlength: u16, seed: u64) -> (u8, u16, u64) {
    let mut w = worm(40, 12, 0, runlength);
    let mut rng = seed;
    step_worm(&mut w, 80, 24, &mut rng);
    (w.dir, w.runlength, rng)
}

#[test]
fn new_worm_from_a_known_seed() {
    let mut rng = 42;
    let w = mk_worm(&mut rng, 80, 24, 0, 99);
    assert_eq!(w.segs, [(40, 6); 4]);
    assert_eq!(w.dir, 4);
    assert_eq!((w.length, w.target_length, w.runlength), (4, 4, 4));
    assert_eq!(w.next_step, 99);
    assert_eq!(rng, 7615522811268512075);
}

#[test]
fn new_worm_on_a_tiny_terminal() {
    let mut rng = 42;
    let w = mk_worm(&mut rng, 1, 1, 0, 0);
    assert_eq!(w.segs, [(2, 2); 4]);
    assert_eq!(w.dir, 4);
}

#[test]
fn new_worms_are_on_screen_and_go_straight() {
    let mut rng = 7;
    for cpu in 0..1000 {
        let w = mk_worm(&mut rng, 20, 10, cpu, 0);
        assert!(w.segs[0].0 <= 18 && w.segs[0].1 <= 9);
        assert!(w.dir < 8 && w.dir % 2 == 0);
    }
}

#[test]
fn body_follows_the_head() {
    let mut w = worm(40, 10, 2, 3);
    let mut rng = NEXT_IS_51;
    step_worm(&mut w, 80, 24, &mut rng);
    assert_eq!(w.segs, [(42, 10), (40, 10), (30, 10), (32, 10)]);
    assert_eq!(w.length, 4);
    assert_eq!(w.target_length, 4);
    assert_eq!(w.next_step, 7);
}

#[test]
fn tail_is_cut_to_the_length() {
    let mut w = worm(40, 10, 2, 3);
    let mut rng = 0;
    w.length = 2;
    step_worm(&mut w, 80, 24, &mut rng);
    assert_eq!(w.segs, [(42, 10), (40, 10)]);
    w.length = 9;
    step_worm(&mut w, 80, 24, &mut rng);
    assert_eq!(w.segs.len(), 3);
    w.length = 0;
    step_worm(&mut w, 80, 24, &mut rng);
    assert!(w.segs.is_empty());
    assert!(!can_move(&w, 80, 24));
}

#[test]
fn worms_go_straight_in_the_open() {
    assert_eq!(stepped(40, 12, 0), ((40, 13), 0));
    assert_eq!(stepped(40, 12, 1), ((41, 13), 1));
    assert_eq!(stepped(40, 12, 2), ((42, 12), 2));
    assert_eq!(stepped(40, 12, 3), ((41, 11), 3));
    assert_eq!(stepped(40, 12, 4), ((40, 11), 4));
    assert_eq!(stepped(40, 12, 5), ((39, 11), 5));
    assert_eq!(stepped(40, 12, 6), ((38, 12), 6));
    assert_eq!(stepped(40, 12, 7), ((39, 13), 7));
}

#[test]
fn worms_bounce_off_the_left() {
    assert_eq!(stepped(0, 12, 5), ((1, 11), 1));
    assert_eq!(stepped(1, 12, 6), ((1, 12), 2));
    assert_eq!(stepped(0, 12, 7), ((1, 13), 3));
    assert_eq!(stepped(2, 12, 6), ((0, 12), 6));
}

#[test]
fn worms_bounce_off_the_top() {
    assert_eq!(stepped(40, 0, 3), ((41, 1), 7));
    assert_eq!(stepped(40, 0, 4), ((40, 1), 0));
    assert_eq!(stepped(40, 0, 5), ((39, 1), 1));
    assert_eq!(stepped(0, 0, 5), ((1, 0), 1));
}

#[test]
fn worms_bounce_off_the_right() {
    assert_eq!(stepped(77, 12, 1), ((78, 13), 5));
    assert_eq!(stepped(76, 12, 2), ((78, 12), 6));
    assert_eq!(stepped(77, 12, 3), ((78, 11), 7));
    assert_eq!(stepped(75, 12, 2), ((77, 12), 2));
    assert_eq!(stepped(77, 23, 1), ((78, 23), 5));
}

#[test]
fn worms_bounce_off_the_bottom() {
    assert_eq!(stepped(40, 23, 0), ((40, 23), 4));
    assert_eq!(stepped(40, 23, 1), ((41, 23), 5));
    assert_eq!(stepped(40, 23, 7), ((39, 23), 3));
    assert_eq!(stepped(40, 22, 0), ((40, 23), 0));
}

#[test]
fn bounces_use_neither_the_run_nor_the_generator() {
    let mut w = worm(40, 23, 0, 3);
    let mut rng = NEXT_IS_126;
    step_worm(&mut w, 80, 24, &mut rng);
    assert_eq!(w.runlength, 3);
    assert_eq!(rng, NEXT_IS_126);
}

#[test]
fn turns_during_a_run() {
    assert_eq!(turned(3, NEXT_IS_126), (0, 2, 7806831264735756412));
    assert_eq!(turned(3, NEXT_IS_51), (0, 2, 1442695040888963407));
    assert_eq!(turned(3, NEXT_IS_0).0, 0);
    assert_eq!(turned(3, NEXT_IS_1).0, 1);
    assert_eq!(turned(3, NEXT_IS_2).0, 7);
}

#[test]
fn turns_at_the_end_of_a_run() {
    assert_eq!(turned(0, NEXT_IS_126), (2, 4, 7806831264735756412));
    assert_eq!(turned(0, NEXT_IS_90).0, 0);
    assert_eq!(turned(0, NEXT_IS_51).0, 0);
    assert_eq!(turned(0, NEXT_IS_1).0, 1);
    assert_eq!(turned(0, NEXT_IS_2).0, 7);
}

#[test]
fn new_run_has_the_low_half_of_the_length() {
    let mut w = worm(40, 12, 0, 0);
    w.length = 0x1_0005;
    let mut rng = NEXT_IS_51;
    step_worm(&mut w, 80, 24, &mut rng);
    assert_eq!(w.runlength, 5);
}

#[test]
fn worms_come_back_after_the_terminal_shrank() {
    let mut w = worm(60, 20, 0, 3);
    let mut rng = NEXT_IS_51;
    step_worm(&mut w, 40, 10, &mut rng);
    assert_eq!((w.segs[0], w.dir), ((38, 9), 4));
}

#[test]
fn worms_crawl_and_stay_on_screen() {
    let mut rng = 12345;
    let mut w = mk_worm(&mut rng, 30, 12, 0, 0);
    w.length = 10;
    for _ in 0..5000 {
        let from = w.segs[0];
        step_worm(&mut w, 30, 12, &mut rng);
        let to = w.segs[0];
        assert!(to.0 <= 28 && to.1 <= 11);
        assert!(to.0.abs_diff(from.0) <= 2 && to.1.abs_diff(from.1) <= 1);
        assert!(w.dir < 8);
        assert_eq!(w.segs[1], from);
    }
    assert_eq!(w.segs.len(), 10);
}

#[test]
fn sixteen_bits_set_the_limits() {
    assert!(can_move(&worm(32765, 32766, 2, 0), 32767, 32767));
    assert!(!can_move(&worm(32766, 10, 2, 0), 32767, 32767));
    assert!(!can_move(&worm(10, 32767, 0, 0), 32767, 32767));
    assert!(!can_move(&worm(32768, 10, 6, 0), 80, 24));
    assert!(!can_move(&worm(10, 32768, 4, 0), 80, 24));
    assert!(!can_move(&worm(10, 10, 0, 0), 32768, 24));
    assert!(!can_move(&worm(10, 10, 0, 0), 32769, 24));
    assert!(can_move(&worm(10, 10, 0, 0), 32770, 24));
    assert!(!can_move(&worm(10, 10, 0, 0), 80, 32768));
    assert!(can_move(&worm(10, 10, 0, 0), 80, 32769));
}

#[test]
fn sides_beyond_fifteen_bits_count_as_negative() {
    let mut w = worm(10, 10, 2, 3);
    let mut rng = NEXT_IS_51;
    step_worm(&mut w, 40000, 24, &mut rng);
    assert_eq!((w.segs[0], w.dir), ((0, 10), 6));
}
