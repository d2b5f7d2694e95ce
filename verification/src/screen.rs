//! Painting the worms into the grid of cells that goes to the terminal.

use crate::shape::{
    char_index, lemma_shade_is_band, lemma_shades_are_even, shade, CELL_W, WORM_MIN_LEN,
};
use crate::state::NetwareState;
use crate::worm::{Worm, WormView};
use ratatui::buffer::Buffer;
use ratatui::style::{Color, Style};
use ratatui::widgets::{Block, Widget};
use vstd::prelude::*;

verus! {

/// The symbols of the four shades, from the darkest one at the head to the lightest one at the
/// tail.
pub const WORM_CHARS: [&'static str; 4] = ["█", "▓", "▒", "░"];

/// The colours of the worms, as red, green and blue; they repeat after sixteen worms.
pub const COLORS: [(u8, u8, u8); 16] = [
    (255, 85, 85),
    (0, 0, 170),
    (85, 255, 85),
    (85, 255, 255),
    (255, 255, 85),
    (255, 255, 255),
    (170, 0, 170),
    (170, 85, 0),
    (170, 0, 0),
    (85, 85, 255),
    (255, 85, 255),
    (170, 170, 170),
    (255, 85, 85),
    (170, 170, 170),
    (0, 170, 0),
    (0, 170, 170),
];

/// The colour of a cell, as far as the worms are concerned.
pub enum Paint {
    /// The terminal's black.
    Black,
    /// A colour given by its red, green and blue parts.
    Rgb(u8, u8, u8),
    /// Any other colour, by its number among them.
    Other(u16),
}

/// What one cell of the grid shows.
#[verifier::ext_equal]
pub struct CellView {
    pub symbol: Seq<char>,
    pub fg: Paint,
    pub bg: Paint,
    /// The colour of an underline.
    pub underline: Paint,
    /// The bits of bold print and the like.
    pub modifier: u16,
    /// Whether the cell is left out when the grid goes to the terminal.
    pub skip: bool,
}

/// A rectangle of cells: its leftmost column, its top row and its size.
pub struct Area {
    pub x: u16,
    pub y: u16,
    pub width: u16,
    pub height: u16,
}

/// A grid of terminal cells.
#[verifier::external_type_specification]
#[verifier::external_body]
pub struct ExBuffer(ratatui::buffer::Buffer);

/// The cells of a grid, by column and row: those within its area that its list of cells is long
/// enough for.
pub uninterp spec fn buffer_cells(buf: Buffer) -> Map<(int, int), CellView>;

/// The rectangle that a grid covers.
pub uninterp spec fn buffer_area(buf: Buffer) -> Area;

/// Whether the columns and rows of a rectangle can all be numbered in 16 bits.
pub open spec fn area_fits(area: Area) -> bool {
    area.x + area.width <= u16::MAX && area.y + area.height <= u16::MAX
}

/// Whether a place lies within a rectangle.
pub open spec fn in_area(area: Area, p: (int, int)) -> bool {
    area.x <= p.0 < area.x + area.width && area.y <= p.1 < area.y + area.height
}

/// The position of a place in the list of cells, which goes row by row.
pub open spec fn slot(area: Area, p: (int, int)) -> int {
    (p.1 - area.y) * area.width + (p.0 - area.x)
}

/// Whether a grid has a cell for each of the first `count` places of its area, and for no other
/// place.
pub open spec fn has_cells(buf: Buffer, count: int) -> bool {
    let area = buffer_area(buf);
    forall|p: (int, int)| #[trigger]
        buffer_cells(buf).dom().contains(p) <==> in_area(area, p) && slot(area, p) < count
}

/// Whether a grid has a cell for every place of its area.
pub open spec fn complete(buf: Buffer) -> bool {
    &&& area_fits(buffer_area(buf))
    &&& forall|p: (int, int)|
        in_area(buffer_area(buf), p) ==> #[trigger] buffer_cells(buf).dom().contains(p)
}

/// Whether a segment of a worm shows at place `p`: it is two columns wide, and what sticks out of
/// the area is cut off.
pub open spec fn covers(area: Area, seg: (u16, u16), p: (int, int)) -> bool {
    &&& seg.1 < area.height
    &&& p.1 == area.y + seg.1
    &&& area.x + seg.0 <= p.0 < area.x + seg.0 + CELL_W
    &&& p.0 < area.x + area.width
}

/// The first segment, from number `from` on, that shows at place `p`.
pub open spec fn first_cover(segs: Seq<(u16, u16)>, area: Area, p: (int, int), from: int) -> Option<
    int,
>
    decreases segs.len() - from,
{
    if from < 0 || from >= segs.len() {
        None
    } else if covers(area, segs[from], p) {
        Some(from)
    } else {
        first_cover(segs, area, p, from + 1)
    }
}

/// The worm and its segment that are on top at place `p`, among the first `k` worms: later worms
/// lie over earlier ones, and each worm's head lies over its tail.
pub open spec fn on_top(worms: Seq<WormView>, area: Area, p: (int, int), k: int) -> Option<
    (int, int),
>
    decreases k,
{
    if k <= 0 {
        None
    } else {
        let segs = worms[k - 1].segs;
        match first_cover(segs, area, p, 0) {
            Some(n) if segs.len() >= WORM_MIN_LEN => Some((k - 1, n)),
            _ => on_top(worms, area, p, k - 1),
        }
    }
}

/// What a cell shows after segment `n` of worm `i`, which has `length` segments, has been painted
/// over it.
pub open spec fn worm_cell(i: int, n: int, length: int, cell: CellView) -> CellView {
    let (r, g, b) = COLORS[i % 16];
    CellView {
        symbol: WORM_CHARS[shade(n, length)]@,
        fg: Paint::Rgb(r, g, b),
        bg: Paint::Black,
        ..cell
    }
}

/// What place `p` shows after the worms have been painted over `cell`: the topmost segment, or
/// the old symbol on black.
pub open spec fn painted(
    worms: Seq<WormView>,
    area: Area,
    p: (int, int),
    cell: CellView,
) -> CellView {
    match on_top(worms, area, p, worms.len() as int) {
        Some((i, n)) => worm_cell(i, n, worms[i].segs.len() as int, cell),
        None => CellView { bg: Paint::Black, ..cell },
    }
}

/// Whether the columns of a segment can be numbered in 16 bits.
pub open spec fn seg_fits(area: Area, seg: (u16, u16)) -> bool {
    seg.1 < area.height ==> area.x + seg.0 + CELL_W - 1 <= u16::MAX
}

/// Whether the columns of all segments that are to be painted can be numbered in 16 bits.
pub open spec fn segs_fit(worms: Seq<WormView>, area: Area) -> bool {
    forall|i: int, n: int|
        0 <= i < worms.len() && worms[i].segs.len() >= WORM_MIN_LEN && 0 <= n < worms[i].segs.len()
            ==> seg_fits(area, #[trigger] worms[i].segs[n])
}

/// `Buffer::area`: the rectangle that the grid covers.
#[verifier::external_body]
fn area_of(buf: &Buffer) -> (r: Area)
    ensures
        r == buffer_area(*buf),
{
    let area = buf.area();
    Area { x: area.x, y: area.y, width: area.width, height: area.height }
}

/// `Buffer::content`, for the length of the list of cells: the grid has a cell for each place of
/// its area whose position is within that list, and for no other place.
#[verifier::external_body]
fn cell_count(buf: &Buffer) -> (r: usize)
    requires
        area_fits(buffer_area(*buf)),
    ensures
        has_cells(*buf, r as int),
{
    buf.content().len()
}

/// `Block::render` with a block that has nothing but a black background: every cell of the grid
/// gets that background, and nothing else changes.
#[verifier::external_body]
fn fill_black(buf: &mut Buffer)
    requires
        complete(*old(buf)),
    ensures
        buffer_area(*final(buf)) == buffer_area(*old(buf)),
        buffer_cells(*final(buf)) == buffer_cells(*old(buf)).map_values(
            |cell: CellView| CellView { bg: Paint::Black, ..cell },
        ),
{
    let area = buf.area;
    Block::default().style(Style::default().bg(Color::Black)).render(area, buf);
}

/// `Cell::set_symbol` on the cell that indexing the grid gives for column `x` and row `y`: the
/// cell's symbol is replaced, and nothing else changes.
#[verifier::external_body]
fn put_symbol(buf: &mut Buffer, x: u16, y: u16, symbol: &str)
    requires
        buffer_cells(*old(buf)).dom().contains((x as int, y as int)),
    ensures
        buffer_area(*final(buf)) == buffer_area(*old(buf)),
        buffer_cells(*final(buf)) == buffer_cells(*old(buf)).insert(
            (x as int, y as int),
            CellView { symbol: symbol@, ..buffer_cells(*old(buf))[(x as int, y as int)] },
        ),
{
    buf[(x, y)].set_symbol(symbol);
}

/// `Cell::set_style` on the cell that indexing the grid gives for column `x` and row `y`, with a
/// foreground of the given red, green and blue parts and a black background: the cell's two
/// colours are replaced, and nothing else changes.
#[verifier::external_body]
fn put_style_on_black(buf: &mut Buffer, x: u16, y: u16, fg: (u8, u8, u8))
    requires
        buffer_cells(*old(buf)).dom().contains((x as int, y as int)),
    ensures
        buffer_area(*final(buf)) == buffer_area(*old(buf)),
        buffer_cells(*final(buf)) == buffer_cells(*old(buf)).insert(
            (x as int, y as int),
            CellView {
                fg: Paint::Rgb(fg.0, fg.1, fg.2),
                bg: Paint::Black,
                ..buffer_cells(*old(buf))[(x as int, y as int)]
            },
        ),
{
    let style = Style::default().fg(Color::Rgb(fg.0, fg.1, fg.2)).bg(Color::Black);
    buf[(x, y)].set_style(style);
}

/// Paints one segment of a worm.
fn paint_segment(buf: &mut Buffer, area: &Area, seg: (u16, u16), symbol: &str, fg: (u8, u8, u8))
    requires
        complete(*old(buf)),
        *area == buffer_area(*old(buf)),
        seg_fits(*area, seg),
    ensures
        complete(*final(buf)),
        buffer_area(*final(buf)) == buffer_area(*old(buf)),
        buffer_cells(*final(buf)).dom() == buffer_cells(*old(buf)).dom(),
        forall|p: (int, int)| #[trigger]
            buffer_cells(*old(buf)).dom().contains(p) ==> buffer_cells(*final(buf))[p] == if covers(
                *area,
                seg,
                p,
            ) {
                CellView {
                    symbol: symbol@,
                    fg: Paint::Rgb(fg.0, fg.1, fg.2),
                    bg: Paint::Black,
                    ..buffer_cells(*old(buf))[p]
                }
            } else {
                buffer_cells(*old(buf))[p]
            },
{
    if seg.1 >= area.height {
        return ;
    }
    let ghost start = buffer_cells(*buf);
    let y: u16 = area.y + seg.1;
    let mut cw: u16 = 0;
    while cw < CELL_W as u16
        invariant
            cw <= CELL_W,
            seg.1 < area.height,
            y == area.y + seg.1,
            complete(*buf),
            *area == buffer_area(*buf),
            seg_fits(*area, seg),
            buffer_cells(*buf).dom() == start.dom(),
            forall|p: (int, int)| #[trigger]
                start.dom().contains(p) ==> buffer_cells(*buf)[p] == if covers(*area, seg, p)
                    && p.0 < area.x + seg.0 + cw {
                    CellView {
                        symbol: symbol@,
                        fg: Paint::Rgb(fg.0, fg.1, fg.2),
                        bg: Paint::Black,
                        ..start[p]
                    }
                } else {
                    start[p]
                },
        decreases CELL_W - cw,
    {
        let x: u16 = area.x + seg.0 + cw;
        if x < area.x + area.width {
            assert(in_area(*area, (x as int, y as int)));
            assert(buffer_cells(*buf).dom().contains((x as int, y as int)));
            put_symbol(buf, x, y, symbol);
            assert(buffer_cells(*buf).dom() =~= start.dom());
            put_style_on_black(buf, x, y, fg);
            assert(buffer_cells(*buf).dom() =~= start.dom());
        }
        cw += 1;
    }
}

/// Paints worm number `i`, its tail first, so that its head ends up on top.
fn paint_worm(buf: &mut Buffer, area: &Area, i: usize, worm: &Worm)
    requires
        complete(*old(buf)),
        *area == buffer_area(*old(buf)),
        worm@.segs.len() >= WORM_MIN_LEN,
        forall|n: int| 0 <= n < worm@.segs.len() ==> seg_fits(*area, #[trigger] worm@.segs[n]),
    ensures
        complete(*final(buf)),
        buffer_area(*final(buf)) == buffer_area(*old(buf)),
        buffer_cells(*final(buf)).dom() == buffer_cells(*old(buf)).dom(),
        forall|p: (int, int)| #[trigger]
            buffer_cells(*old(buf)).dom().contains(p) ==> buffer_cells(*final(buf))[p] == match (
            first_cover(worm@.segs, *area, p, 0)) {
                Some(n) => worm_cell(
                    i as int,
                    n,
                    worm@.segs.len() as int,
                    buffer_cells(*old(buf))[p],
                ),
                None => buffer_cells(*old(buf))[p],
            },
{
    let ghost start = buffer_cells(*buf);
    let fg: (u8, u8, u8) = COLORS[i % 16];
    let length: usize = worm.segs.len();
    let mut n: usize = length;
    while n > 0
        invariant
            n <= length,
            length == worm@.segs.len(),
            fg == COLORS[i as int % 16],
            complete(*buf),
            *area == buffer_area(*buf),
            forall|k: int| 0 <= k < length ==> seg_fits(*area, #[trigger] worm@.segs[k]),
            buffer_cells(*buf).dom() == start.dom(),
            forall|p: (int, int)| #[trigger]
                start.dom().contains(p) ==> buffer_cells(*buf)[p] == match (
                first_cover(worm@.segs, *area, p, n as int)) {
                    Some(k) => worm_cell(i as int, k, length as int, start[p]),
                    None => start[p],
                },
        decreases n,
    {
        n -= 1;
        let seg: (u16, u16) = worm.segs[n];
        assert(seg == worm@.segs[n as int]);
        let symbol: &str = WORM_CHARS[char_index(n, length)];
        paint_segment(buf, area, seg, symbol, fg);
    }
}

/// Paints all worms on a black background, one over the other in their order.
pub fn draw(buf: &mut Buffer, nw: &NetwareState)
    requires
        complete(*old(buf)),
        segs_fit(nw@.worms, buffer_area(*old(buf))),
    ensures
        complete(*final(buf)),
        buffer_area(*final(buf)) == buffer_area(*old(buf)),
        buffer_cells(*final(buf)).dom() == buffer_cells(*old(buf)).dom(),
        forall|p: (int, int)| #[trigger]
            buffer_cells(*old(buf)).dom().contains(p) ==> buffer_cells(*final(buf))[p] == painted(
                nw@.worms,
                buffer_area(*old(buf)),
                p,
                buffer_cells(*old(buf))[p],
            ),
{
    let ghost start = buffer_cells(*buf);
    fill_black(buf);
    assert(buffer_cells(*buf).dom() =~= start.dom());
    let area: Area = area_of(buf);
    let mut i: usize = 0;
    while i < nw.worms.len()
        invariant
            i <= nw.worms.len(),
            complete(*buf),
            area == buffer_area(*buf),
            segs_fit(nw@.worms, area),
            buffer_cells(*buf).dom() == start.dom(),
            forall|p: (int, int)| #[trigger]
                start.dom().contains(p) ==> buffer_cells(*buf)[p] == match (
                on_top(nw@.worms, area, p, i as int)) {
                    Some((k, n)) => worm_cell(k, n, nw@.worms[k].segs.len() as int, start[p]),
                    None => CellView { bg: Paint::Black, ..start[p] },
                },
        decreases nw.worms.len() - i,
    {
        let worm: &Worm = &nw.worms[i];
        assert(nw@.worms[i as int] == worm@);
        if worm.segs.len() >= WORM_MIN_LEN {
            assert forall|n: int| 0 <= n < worm@.segs.len() implies seg_fits(
                area,
                #[trigger] worm@.segs[n],
            ) by {
                assert(nw@.worms[i as int].segs[n] == worm@.segs[n]);
            }
            paint_worm(buf, &area, i, worm);
        }
        i += 1;
    }
}

/// Tells whether the worms can be painted: the grid has all its cells, and all columns can be
/// numbered in 16 bits.
pub fn can_draw(buf: &Buffer, nw: &NetwareState) -> (r: bool)
    ensures
        r == (complete(*buf) && segs_fit(nw@.worms, buffer_area(*buf))),
{
    let area: Area = area_of(buf);
    if area.x as u32 + area.width as u32 > 0xFFFF || area.y as u32 + area.height as u32 > 0xFFFF {
        return false;
    }
    let count: usize = cell_count(buf);
    proof {
        lemma_complete(*buf, count as int);
        assert(area.width * area.height <= 0xFFFF * 0xFFFF) by (nonlinear_arith)
            requires
                area.width <= 0xFFFF,
                area.height <= 0xFFFF,
        ;
    }
    if (count as u64) < area.width as u64 * area.height as u64 {
        return false;
    }
    let mut i: usize = 0;
    while i < nw.worms.len()
        invariant
            i <= nw.worms.len(),
            area == buffer_area(*buf),
            forall|k: int, n: int|
                0 <= k < i && nw@.worms[k].segs.len() >= WORM_MIN_LEN && 0 <= n
                    < nw@.worms[k].segs.len() ==> seg_fits(area, #[trigger] nw@.worms[k].segs[n]),
        decreases nw.worms.len() - i,
    {
        let worm: &Worm = &nw.worms[i];
        assert(nw@.worms[i as int] == worm@);
        let length: usize = worm.segs.len();
        if length >= WORM_MIN_LEN {
            let mut n: usize = 0;
            while n < length
                invariant
                    n <= length,
                    i < nw.worms.len(),
                    nw@.worms[i as int] == worm@,
                    length == worm@.segs.len(),
                    length >= WORM_MIN_LEN,
                    area == buffer_area(*buf),
                    forall|k: int| 0 <= k < n ==> seg_fits(area, #[trigger] worm@.segs[k]),
                decreases length - n,
            {
                let seg: (u16, u16) = worm.segs[n];
                assert(nw@.worms[i as int].segs[n as int] == seg);
                let right: u32 = area.x as u32 + seg.0 as u32 + CELL_W as u32 - 1;
                if seg.1 < area.height && right > 0xFFFF {
                    return false;
                }
                n += 1;
            }
        }
        i += 1;
    }
    true
}

/// A grid is complete if and only if it has as many cells as its area has places.
proof fn lemma_complete(buf: Buffer, count: int)
    requires
        area_fits(buffer_area(buf)),
        has_cells(buf, count),
        0 <= count,
    ensures
        complete(buf) <==> count >= buffer_area(buf).width * buffer_area(buf).height,
{
    let area = buffer_area(buf);
    let width = area.width as int;
    let height = area.height as int;
    if count >= width * height {
        assert forall|p: (int, int)| in_area(area, p) implies #[trigger] buffer_cells(
            buf,
        ).dom().contains(p) by {
            let row = p.1 - area.y;
            let col = p.0 - area.x;
            assert(row * width + col < width * height) by (nonlinear_arith)
                requires
                    0 <= row < height,
                    0 <= col < width,
            ;
        }
    } else {
        let row = count / width;
        let col = count % width;
        assert(0 < width && 0 <= row < height && row * width + col == count) by (nonlinear_arith)
            requires
                0 <= count < width * height,
                0 <= width,
                0 <= height,
                row == count / width,
                col == count % width,
        ;
        let p = (area.x + col, area.y + row);
        assert(in_area(area, p));
        assert(!buffer_cells(buf).dom().contains(p));
    }
}

/// What shows of a worm lies within the area that is painted.
pub proof fn lemma_worms_stay_inside(area: Area, seg: (u16, u16), p: (int, int))
    requires
        covers(area, seg, p),
    ensures
        in_area(area, p),
{
}

/// Where a segment shows, the topmost one is that segment or one closer to the head.
pub proof fn lemma_first_cover(segs: Seq<(u16, u16)>, area: Area, p: (int, int), from: int, n: int)
    requires
        0 <= from <= n < segs.len(),
        covers(area, segs[n], p),
    ensures
        first_cover(segs, area, p, from) matches Some(k) && from <= k <= n && covers(
            area,
            segs[k],
            p,
        ),
    decreases n - from,
{
    if !covers(area, segs[from], p) {
        lemma_first_cover(segs, area, p, from + 1, n);
    }
}

/// The head of a worm shows in full, in the worm's own colour and the darkest shade, wherever no
/// later worm lies over it.
pub proof fn lemma_head_is_on_top(
    worms: Seq<WormView>,
    area: Area,
    p: (int, int),
    cell: CellView,
    i: int,
)
    requires
        0 <= i < worms.len(),
        worms[i].segs.len() >= WORM_MIN_LEN,
        covers(area, worms[i].segs[0], p),
        forall|j: int, n: int|
            i < j < worms.len() && worms[j].segs.len() >= WORM_MIN_LEN && 0 <= n
                < worms[j].segs.len() ==> !covers(
                area,
                #[trigger] worms[j].segs[n],
                p,
            ),
    ensures
        painted(worms, area, p, cell) == worm_cell(i, 0, worms[i].segs.len() as int, cell),
        shade(0, worms[i].segs.len() as int) == 0,
{
    lemma_nothing_later_on_top(worms, area, p, i, worms.len() as int);
    lemma_first_cover(worms[i].segs, area, p, 0, 0);
    lemma_shade_is_band(0, worms[i].segs.len() as int);
    let length = worms[i].segs.len() as int;
    let c = shade(0, length);
    if c > 0 {
        assert(c * (length / 4) >= 1) by (nonlinear_arith)
            requires
                c >= 1,
                length / 4 >= 1,
        ;
    }
}

/// Worms that do not show at a place leave it to the worms before them.
proof fn lemma_nothing_later_on_top(
    worms: Seq<WormView>,
    area: Area,
    p: (int, int),
    i: int,
    k: int,
)
    requires
        0 <= i < k <= worms.len(),
        forall|j: int, n: int|
            i < j < k && worms[j].segs.len() >= WORM_MIN_LEN && 0 <= n < worms[j].segs.len()
                ==> !covers(
                area,
                #[trigger] worms[j].segs[n],
                p,
            ),
    ensures
        on_top(worms, area, p, k) == on_top(worms, area, p, i + 1),
    decreases k,
{
    if i + 1 < k {
        if worms[k - 1].segs.len() >= WORM_MIN_LEN {
            lemma_no_cover(worms[k - 1].segs, area, p, 0);
        }
        lemma_nothing_later_on_top(worms, area, p, i, k - 1);
    }
}

/// Where no segment shows, there is no first one that does.
proof fn lemma_no_cover(segs: Seq<(u16, u16)>, area: Area, p: (int, int), from: int)
    requires
        0 <= from <= segs.len(),
        forall|n: int| from <= n < segs.len() ==> !covers(area, #[trigger] segs[n], p),
    ensures
        first_cover(segs, area, p, from) is None,
    decreases segs.len() - from,
{
    if from < segs.len() {
        lemma_no_cover(segs, area, p, from + 1);
    }
}

/// A later worm lies over all earlier ones.
pub proof fn lemma_last_worm_is_on_top(
    worms: Seq<WormView>,
    area: Area,
    p: (int, int),
    cell: CellView,
    n: int,
)
    requires
        worms.len() > 0,
        worms.last().segs.len() >= WORM_MIN_LEN,
        0 <= n < worms.last().segs.len(),
        covers(area, worms.last().segs[n], p),
        forall|m: int| 0 <= m < n ==> !covers(area, #[trigger] worms.last().segs[m], p),
    ensures
        painted(worms, area, p, cell) == worm_cell(
            worms.len() - 1,
            n,
            worms.last().segs.len() as int,
            cell,
        ),
{
    lemma_first_cover(worms.last().segs, area, p, 0, n);
}

/// A place where no worm shows keeps its symbol, on black.
pub proof fn lemma_bare_place_is_black(
    worms: Seq<WormView>,
    area: Area,
    p: (int, int),
    cell: CellView,
)
    requires
        forall|j: int, n: int|
            0 <= j < worms.len() && worms[j].segs.len() >= WORM_MIN_LEN && 0 <= n
                < worms[j].segs.len() ==> !covers(
                area,
                #[trigger] worms[j].segs[n],
                p,
            ),
    ensures
        painted(worms, area, p, cell) == (CellView { bg: Paint::Black, ..cell }),
{
    if worms.len() > 0 {
        lemma_nothing_later_on_top(worms, area, p, 0, worms.len() as int);
        if worms[0].segs.len() >= WORM_MIN_LEN {
            lemma_no_cover(worms[0].segs, area, p, 0);
        }
        assert(on_top(worms, area, p, 0) is None);
    }
}

/// A segment shows in its own row, in its own column and the one to the right of it, as far as
/// these are within the area.
pub proof fn lemma_segment_is_two_columns_wide(area: Area, seg: (u16, u16), p: (int, int))
    ensures
        covers(area, seg, p) <==> {
            &&& p.1 - area.y == seg.1
            &&& p.0 - area.x == seg.0 || p.0 - area.x == seg.0 + 1
            &&& p.0 < area.x + area.width
            &&& p.1 < area.y + area.height
        },
{
}

/// The topmost segment at a place is what shows there. If segment `n` of worm `i` is there, no
/// segment closer to the head is, and no later worm is, the place shows the colour of the worm,
/// one of sixteen that repeat, on black, and the symbol of the stretch that the segment lies in.
/// The worm of `4 * d + r` segments has four stretches, from the head to the tail, the first `r`
/// of `d + 1` segments and the others of `d`. Worms of fewer than four segments do not show.
pub proof fn lemma_topmost_segment_shows(
    worms: Seq<WormView>,
    area: Area,
    p: (int, int),
    cell: CellView,
    i: int,
    n: int,
    d: int,
    r: int,
    k: int,
    colour: int,
)
    requires
        0 <= i < worms.len(),
        worms[i].segs.len() == 4 * d + r,
        1 <= d,
        0 <= r < 4,
        0 <= n < worms[i].segs.len(),
        p.1 - area.y == worms[i].segs[n].1,
        p.0 - area.x == worms[i].segs[n].0 || p.0 - area.x == worms[i].segs[n].0 + 1,
        p.0 < area.x + area.width,
        p.1 < area.y + area.height,
        forall|j: int, m: int|
            i <= j < worms.len() && worms[j].segs.len() >= 4 && 0 <= m < worms[j].segs.len() && (j
                == i ==> m < n) ==> p.1 - area.y != (#[trigger] worms[j].segs[m]).1 || (p.0 - area.x
                != worms[j].segs[m].0 && p.0 - area.x != worms[j].segs[m].0 + 1),
        0 <= k < 4,
        k * d + (if k <= r {
            k
        } else {
            r
        }) <= n < (k + 1) * d + (if k + 1 <= r {
            k + 1
        } else {
            r
        }),
        0 <= colour < 16,
        (i - colour) % 16 == 0,
    ensures
        painted(worms, area, p, cell) == (CellView {
            symbol: WORM_CHARS[k]@,
            fg: Paint::Rgb(COLORS[colour].0, COLORS[colour].1, COLORS[colour].2),
            bg: Paint::Black,
            ..cell
        }),
{
    let segs = worms[i].segs;
    lemma_segment_is_two_columns_wide(area, segs[n], p);
    assert forall|j: int, m: int|
        i < j < worms.len() && worms[j].segs.len() >= WORM_MIN_LEN && 0 <= m
            < worms[j].segs.len() implies !covers(area, #[trigger] worms[j].segs[m], p) by {
        lemma_segment_is_two_columns_wide(area, worms[j].segs[m], p);
    }
    lemma_nothing_later_on_top(worms, area, p, i, worms.len() as int);
    lemma_first_cover(segs, area, p, 0, n);
    let first = first_cover(segs, area, p, 0)->0;
    if first < n {
        assert(worms[i].segs[first] == segs[first]);
        lemma_segment_is_two_columns_wide(area, segs[first], p);
    }
    assert(on_top(worms, area, p, i + 1) == Some((i, n)));
    lemma_shades_are_even(n, d, r, k);
    assert(i % 16 == colour);
}

/// A place that no worm of four or more segments reaches keeps all but its background.
pub proof fn lemma_unreached_place_is_kept(
    worms: Seq<WormView>,
    area: Area,
    p: (int, int),
    cell: CellView,
)
    requires
        forall|j: int, m: int|
            0 <= j < worms.len() && worms[j].segs.len() >= 4 && 0 <= m < worms[j].segs.len()
                ==> p.1 - area.y != (#[trigger] worms[j].segs[m]).1 || (p.0 - area.x
                != worms[j].segs[m].0 && p.0 - area.x != worms[j].segs[m].0 + 1),
    ensures
        painted(worms, area, p, cell) == (CellView { bg: Paint::Black, ..cell }),
{
    assert forall|j: int, m: int|
        0 <= j < worms.len() && worms[j].segs.len() >= WORM_MIN_LEN && 0 <= m
            < worms[j].segs.len() implies !covers(area, #[trigger] worms[j].segs[m], p) by {
        lemma_segment_is_two_columns_wide(area, worms[j].segs[m], p);
    }
    lemma_bare_place_is_black(worms, area, p, cell);
}

/// Worms can be painted unless a segment that shows has a column beyond 16 bits.
pub proof fn lemma_what_can_be_painted(worms: Seq<WormView>, area: Area)
    requires
        forall|i: int, n: int|
            0 <= i < worms.len() && worms[i].segs.len() >= 4 && 0 <= n < worms[i].segs.len() && (
            #[trigger] worms[i].segs[n]).1 < area.height ==> area.x + worms[i].segs[n].0 + 1
                <= 65535,
    ensures
        segs_fit(worms, area),
{
    assert forall|i: int, n: int|
        0 <= i < worms.len() && worms[i].segs.len() >= WORM_MIN_LEN && 0 <= n
            < worms[i].segs.len() implies seg_fits(area, #[trigger] worms[i].segs[n]) by {}
}

/// A grid can be painted on if and only if its right and bottom edges are numbers of 16 bits and
/// it has a cell for every place that its area spans.
pub proof fn lemma_what_is_complete(buf: Buffer, p: (int, int))
    ensures
        ({
            let area = buffer_area(buf);
            &&& complete(buf) ==> area.x + area.width <= 65535 && area.y + area.height <= 65535
            &&& complete(buf) && area.x <= p.0 < area.x + area.width && area.y <= p.1 < area.y
                + area.height ==> buffer_cells(buf).dom().contains(p)
            &&& area.x + area.width <= 65535 && area.y + area.height <= 65535 && (forall|q: (
                int,
                int,
            )|
                area.x <= q.0 < area.x + area.width && area.y <= q.1 < area.y + area.height
                    ==> #[trigger] buffer_cells(buf).dom().contains(q)) ==> complete(buf)
        }),
{
}

} // verus!
