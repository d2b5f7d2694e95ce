use cworm::screen::{can_draw, draw};
use cworm::state::NetwareState;
use ratatui::buffer::{Buffer, Cell};
use ratatui::layout::Rect;
use ratatui::style::Color;

fn scene(worms: &[&[(u16, u16)]]) -> NetwareState {
    let cpuinfo = "processor\n".repeat(worms.len());
    let mut s = NetwareState::new(80, 24, Some(1), &cpuinfo, None, 0);
    for (worm, segs) in s.worms.iter_mut().zip(worms) {
        worm.segs = segs.iter().copied().collect();
        worm.length = segs.len();
    }
    s
}

fn painted(area: Rect, s: &NetwareState) -> Buffer {
    let mut buf = Buffer::empty(area);
    assert!(can_draw(&buf, s));
    draw(&mut buf, s);
    buf
}

fn row(buf: &Buffer, y: u16) -> String {
    (buf.area.left()..buf.area.right()).map(|x| buf[(x, y)].symbol()).collect()
}

#[test]
fn worm_is_shaded_from_head_to_tail() {
    let s = scene(&[&[(1, 1), (3, 1), (5, 1), (7, 1)]]);
    let buf = painted(Rect::new(0, 0, 12, 3), &s);
    assert_eq!(row(&buf, 0), "            ");
    assert_eq!(row(&buf, 1), " ██▓▓▒▒░░   ");
    assert_eq!(row(&buf, 2), "            ");
}

#[test]
fn cells_get_the_colour_of_their_worm_on_black() {
    let s = scene(&[&[(0, 0), (2, 0), (4, 0), (6, 0)], &[(0, 1), (2, 1), (4, 1), (6, 1)]]);
    let buf = painted(Rect::new(0, 0, 10, 3), &s);
    for x in 0..8 {
        assert_eq!(buf[(x, 0)].fg, Color::Rgb(255, 85, 85));
        assert_eq!(buf[(x, 1)].fg, Color::Rgb(0, 0, 170));
    }
    assert_eq!(buf[(9, 0)].fg, Color::Reset);
    for y in 0..3 {
        for x in 0..10 {
            assert_eq!(buf[(x, y)].bg, Color::Black);
        }
    }
}

#[test]
fn background_keeps_symbols_and_foregrounds() {
    let mut cell = Cell::new("x");
    cell.set_fg(Color::Green);
    cell.set_bg(Color::White);
    let mut buf = Buffer::filled(Rect::new(0, 0, 4, 2), cell);
    let s = scene(&[&[(0, 0), (0, 0), (0, 0), (0, 0)]]);
    draw(&mut buf, &s);
    assert_eq!(row(&buf, 0), "██xx");
    assert_eq!(buf[(2, 0)].fg, Color::Green);
    assert_eq!(buf[(2, 0)].bg, Color::Black);
    assert_eq!(row(&buf, 1), "xxxx");
}

#[test]
fn head_lies_over_the_tail() {
    let s = scene(&[&[(2, 0), (2, 0), (2, 0), (3, 0)]]);
    let buf = painted(Rect::new(0, 0, 6, 1), &s);
    assert_eq!(row(&buf, 0), "  ██░ ");
}

#[test]
fn later_worms_lie_over_earlier_ones() {
    let s = scene(&[&[(0, 0), (2, 0), (4, 0), (6, 0)], &[(9, 9), (9, 9), (9, 9), (2, 0)]]);
    let buf = painted(Rect::new(0, 0, 8, 1), &s);
    assert_eq!(row(&buf, 0), "██░░▒▒░░");
    assert_eq!(buf[(2, 0)].fg, Color::Rgb(0, 0, 170));
    assert_eq!(buf[(4, 0)].fg, Color::Rgb(255, 85, 85));
}

#[test]
fn segments_out_of_the_area_are_cut_off() {
    let s = scene(&[&[(5, 0), (6, 0), (0, 1), (70, 0)]]);
    let buf = painted(Rect::new(0, 0, 6, 1), &s);
    assert_eq!(row(&buf, 0), "     █");
}

#[test]
fn area_may_start_anywhere() {
    let s = scene(&[&[(0, 0), (2, 0), (0, 1), (2, 1)]]);
    let buf = painted(Rect::new(10, 5, 4, 2), &s);
    assert_eq!(row(&buf, 5), "██▓▓");
    assert_eq!(row(&buf, 6), "▒▒░░");
}

#[test]
fn stubs_are_not_painted() {
    let s = scene(&[&[(0, 0), (2, 0), (4, 0)]]);
    let buf = painted(Rect::new(0, 0, 6, 1), &s);
    assert_eq!(row(&buf, 0), "      ");
}

#[test]
fn colours_repeat_after_sixteen_worms() {
    let worm: &[(u16, u16)] = &[(0, 0), (0, 0), (0, 0), (0, 0)];
    let expected = [
        (255, 85, 85),
        (0, 0, 170),
        (85, 255, 85),
        (85, 255, 255),
        (255, 255, 85),
        (255, 255, 255),
        (170, 0, 170),
        (170, 85, 0),
        (170, 0, 0),
        (85, 85, 255),
        (255, 85, 255),
        (170, 170, 170),
        (255, 85, 85),
        (170, 170, 170),
        (0, 170, 0),
        (0, 170, 170),
    ];
    for n in 1..=20 {
        let s = scene(&vec![worm; n]);
        let buf = painted(Rect::new(0, 0, 2, 1), &s);
        let (r, g, b) = expected[(n - 1) % 16];
        assert_eq!(buf[(0, 0)].fg, Color::Rgb(r, g, b));
    }
}

#[test]
fn empty_area_is_fine() {
    let s = scene(&[&[(0, 0), (2, 0), (4, 0), (6, 0)]]);
    let buf = painted(Rect::new(0, 0, 0, 0), &s);
    assert!(buf.content.is_empty());
}

#[test]
fn incomplete_grids_are_refused() {
    let s = scene(&[&[(0, 0), (2, 0), (4, 0), (6, 0)]]);
    let mut buf = Buffer::empty(Rect::new(0, 0, 3, 3));
    assert!(can_draw(&buf, &s));
    buf.content.pop();
    assert!(!can_draw(&buf, &s));
    let wide = Buffer { area: Rect { x: 65535, y: 0, width: 1, height: 1 }, content: vec![] };
    assert!(!can_draw(&wide, &s));
}

#[test]
fn columns_beyond_sixteen_bits_are_refused() {
    let buf = Buffer::empty(Rect::new(0, 0, 3, 3));
    assert!(can_draw(&buf, &scene(&[&[(65534, 0), (2, 0), (4, 0), (6, 0)]])));
    assert!(!can_draw(&buf, &scene(&[&[(65535, 0), (2, 0), (4, 0), (6, 0)]])));
    assert!(can_draw(&buf, &scene(&[&[(65535, 3), (2, 0), (4, 0), (6, 0)]])));
    assert!(can_draw(&buf, &scene(&[&[(65535, 0), (2, 0), (4, 0)]])));
}

#[test]
fn grids_of_odd_shapes_count_their_cells() {
    let s = scene(&[&[(0, 0), (2, 0), (4, 0), (6, 0)]]);
    let mut buf = Buffer::empty(Rect::new(2, 3, 5, 2));
    buf.content.push(Cell::new("y"));
    assert!(can_draw(&buf, &s));
    buf.content.truncate(9);
    assert!(!can_draw(&buf, &s));
}
