use cworm::shape::{
    char_index, clamp_delay_ms, dir_delta, limit_for, target_length, worm_max_length,
};

#[test]
fn small_terminals_have_the_base_length() {
    assert_eq!(worm_max_length(0, 0), 18);
    assert_eq!(worm_max_length(80, 19), 18);
    assert_eq!(worm_max_length(80, 24), 18);
    assert_eq!(worm_max_length(1520 + 483, 1), 18);
}

#[test]
fn length_scales_with_area() {
    assert_eq!(worm_max_length(1520 + 484, 1), 19);
    assert_eq!(worm_max_length(120, 40), 24);
    assert_eq!(worm_max_length(40, 120), 24);
    assert_eq!(worm_max_length(10231, 1), 35);
    assert_eq!(worm_max_length(10232, 1), 36);
}

#[test]
fn large_terminals_have_the_absolute_ceiling() {
    assert_eq!(worm_max_length(160, 64), 36);
    assert_eq!(worm_max_length(65535, 65535), 36);
}

#[test]
fn target_is_the_square_of_the_load() {
    assert_eq!(target_length(0, 36), 4);
    assert_eq!(target_length(33, 36), 4);
    assert_eq!(target_length(50, 36), 9);
    assert_eq!(target_length(75, 36), 20);
    assert_eq!(target_length(99, 36), 35);
    assert_eq!(target_length(100, 36), 36);
    assert_eq!(target_length(100, 18), 18);
    assert_eq!(target_length(100, 3), 3);
}

#[test]
fn target_never_falls_as_load_rises() {
    for wmax in 18..=36 {
        for util in 0..100 {
            assert!(target_length(util, wmax) <= target_length(util + 1, wmax));
        }
    }
}

#[test]
fn longer_worms_wait_for_fewer_delays() {
    assert_eq!(limit_for(4, 36), 4);
    assert_eq!(limit_for(9, 36), 3);
    assert_eq!(limit_for(17, 36), 3);
    assert_eq!(limit_for(18, 36), 2);
    assert_eq!(limit_for(27, 36), 1);
    assert_eq!(limit_for(36, 36), 0);
    assert_eq!(limit_for(4, 18), 3);
    assert_eq!(limit_for(18, 18), 0);
    for length in 0..40 {
        assert!(limit_for(length, 36) >= limit_for(length + 1, 36));
    }
}

#[test]
fn limit_with_a_tiny_maximum_divides_by_one() {
    assert_eq!(limit_for(0, 0), 4);
    assert_eq!(limit_for(3, 3), 1);
    assert_eq!(limit_for(100, 0), 0);
}

#[test]
fn limit_uses_the_low_half_of_a_huge_quotient() {
    assert_eq!(limit_for(0x1_0000_0000, 0), 4);
    assert_eq!(limit_for(0x1_0000_0003, 0), 1);
}

#[test]
fn delays_are_clamped() {
    assert_eq!(clamp_delay_ms(0), 10);
    assert_eq!(clamp_delay_ms(10), 10);
    assert_eq!(clamp_delay_ms(55), 55);
    assert_eq!(clamp_delay_ms(100), 100);
    assert_eq!(clamp_delay_ms(u64::MAX), 100);
}

#[test]
fn directions_go_counter_clockwise_from_down() {
    let expected: [(i16, i16); 8] =
        [(0, 1), (1, 1), (2, 0), (1, -1), (0, -1), (-1, -1), (-2, 0), (-1, 1)];
    for dir in 0..8u8 {
        assert_eq!(dir_delta(dir), expected[dir as usize]);
    }
    assert_eq!(dir_delta(8), (0, 1));
    assert_eq!(dir_delta(255), (0, 1));
}

#[test]
fn opposite_directions_cancel() {
    for dir in 0..8u8 {
        let (dx, dy) = dir_delta(dir);
        assert_eq!(dir_delta((dir + 4) % 8), (-dx, -dy));
    }
}

#[test]
fn shades_of_ten_segments() {
    let shades: Vec<usize> = (0..10).map(|n| char_index(n, 10)).collect();
    assert_eq!(shades, vec![0, 0, 0, 1, 1, 1, 2, 2, 3, 3]);
}

#[test]
fn shades_of_short_worms() {
    assert_eq!(char_index(2, 3), 0);
    assert_eq!((0..4).map(|n| char_index(n, 4)).collect::<Vec<_>>(), vec![0, 1, 2, 3]);
    assert_eq!((0..5).map(|n| char_index(n, 5)).collect::<Vec<_>>(), vec![0, 0, 1, 2, 3]);
}

#[test]
fn shades_wrap_behind_the_tail() {
    assert_eq!(char_index(4, 4), 0);
    assert_eq!(char_index(11, 10), 0);
}

#[test]
fn shades_never_get_darker_towards_the_tail() {
    for length in 4..40 {
        assert_eq!(char_index(0, length), 0);
        assert_eq!(char_index(length - 1, length), 3);
        for n in 1..length {
            assert!(char_index(n - 1, length) <= char_index(n, length));
        }
    }
}
