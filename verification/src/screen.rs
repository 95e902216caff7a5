use vstd::prelude::*;
use vstd::wrapping::u8_specs;
use crate::kernel::PortWriteWord;
use crate::extra::{to_str_bytes, int_text, abs_int, digits_printable, lemma_int_text_shape, TEXT_SIZE};
use vstd::arithmetic::div_mod::lemma_fundamental_div_mod_converse;

verus! {

/// The sixteen colours of the text mode.
#[derive(Clone, Copy, Debug, PartialEq, Eq, Structural)]
pub enum Color {
    Black,
    Blue,
    Green,
    Cyan,
    Red,
    Pink,
    Brown,
    LightGray,
    DarkGray,
    LightBlue,
    LightGreen,
    LightCyan,
    LightRed,
    LightPink,
    Yellow,
    White,
}

/// The colour's number in the text mode.
pub open spec fn color_value(c: Color) -> u8 {
    match c {
        Color::Black => 0,
        Color::Blue => 1,
        Color::Green => 2,
        Color::Cyan => 3,
        Color::Red => 4,
        Color::Pink => 5,
        Color::Brown => 6,
        Color::LightGray => 7,
        Color::DarkGray => 8,
        Color::LightBlue => 9,
        Color::LightGreen => 10,
        Color::LightCyan => 11,
        Color::LightRed => 12,
        Color::LightPink => 13,
        Color::Yellow => 14,
        Color::White => 15,
    }
}

impl Color {
    /// The colour's number in the text mode.
    pub fn value(self) -> (v: u8)
        ensures
            v == color_value(self),
    {
        match self {
            Color::Black => 0,
            Color::Blue => 1,
            Color::Green => 2,
            Color::Cyan => 3,
            Color::Red => 4,
            Color::Pink => 5,
            Color::Brown => 6,
            Color::LightGray => 7,
            Color::DarkGray => 8,
            Color::LightBlue => 9,
            Color::LightGreen => 10,
            Color::LightCyan => 11,
            Color::LightRed => 12,
            Color::LightPink => 13,
            Color::Yellow => 14,
            Color::White => 15,
        }
    }
}

/// Width of the text screen, in characters.
pub const VGA_WIDTH: usize = 80;

/// Rows of the text screen that the monitor is set up with.
pub const VGA_HEIGHT: usize = 24;

/// The most screens (rectangles of the text screen) there can be.
pub const MAX_SCREENS: usize = 40;

/// A character cell of the text screen written: cell `index` (row times 80
/// plus column) gets character and attribute `value`.
#[derive(Clone, Copy, Debug, PartialEq, Eq, Structural)]
pub struct VgaWrite {
    pub index: usize,
    pub value: u16,
}

/// A rectangle of the text screen with its own cursor: `x`, `y` relative to
/// the start, colour attribute, tab size, and the columns `start_x..stop_x`
/// and rows `start_y..stop_y` it covers.
#[derive(Clone, Copy, Debug, PartialEq, Eq, Structural)]
pub struct Screen {
    pub x: u8,
    pub y: u8,
    pub color: u8,
    pub tab_sz: u8,
    pub stop_x: u8,
    pub stop_y: u8,
    pub start_x: u8,
    pub start_y: u8,
}

/// A screen before it is set up: the whole monitor, tabs of 4.
pub open spec fn default_screen() -> Screen {
    Screen { x: 0, y: 0, color: 0, tab_sz: 4, stop_x: 80, stop_y: 24, start_x: 0, start_y: 0 }
}

/// The cell under the cursor `x`, `y` of screen `s` (the sums wrap in 8 bits).
pub open spec fn cell_index(s: Screen, x: u8, y: u8) -> usize {
    (u8_specs::wrapping_add(y, s.start_y) as int * 80 + u8_specs::wrapping_add(x, s.start_x) as int) as usize
}

/// Character `c` on screen `s`: backspace steps back and blanks the cell,
/// tab moves to the next multiple of the tab size, carriage return and
/// newline move to the start column (newline also down a row), a printable
/// character is written and the cursor advances; anything else does
/// nothing.  A cursor at or past the stop column wraps to the next row.
pub open spec fn putc_spec(s: Screen, c: u8) -> (Screen, Option<VgaWrite>) {
    let att: u16 = (((s.color as u16) << 8u16) | (c as u16)) as u16;
    let (s1, w) = if c == 8 && s.x > 0 {
        let x = (s.x - 1) as u8;
        (Screen { x, ..s }, Some(VgaWrite { index: cell_index(s, x, s.y), value: 0x20u16 | (att & 0xff00u16) }))
    } else if c == 9 {
        (Screen { x: u8_specs::wrapping_add(s.x, s.tab_sz) & !u8_specs::wrapping_sub(s.tab_sz, 1), ..s }, None)
    } else if c == 13 {
        (Screen { x: s.start_x, ..s }, None)
    } else if c == 10 {
        (Screen { x: s.start_x, y: u8_specs::wrapping_add(s.y, 1), ..s }, None)
    } else if 32 <= c <= 126 {
        (
            Screen { x: u8_specs::wrapping_add(s.x, 1), ..s },
            Some(VgaWrite { index: cell_index(s, s.x, s.y), value: (c as u16) | att }),
        )
    } else {
        (s, None)
    };
    if s1.x >= s1.stop_x {
        (Screen { x: 0, y: u8_specs::wrapping_add(s1.y, 1), ..s1 }, w)
    } else {
        (s1, w)
    }
}

/// On a screen whose stop column is not 0, the cursor is left of the stop
/// column after every character.
pub proof fn lemma_putc_cursor_in_row(s: Screen, c: u8)
    requires
        s.stop_x > 0,
    ensures
        putc_spec(s, c).0.x < s.stop_x,
        putc_spec(s, c).0.stop_x == s.stop_x,
{
}

proof fn lemma_cell_value(color: u8, c: u8)
    by (bit_vector)
    ensures
        (c as u16) | (((color as u16) << 8u16) | (c as u16)) == (color as u16) * 256 + (c as u16),
        0x20u16 | ((((color as u16) << 8u16) | (c as u16)) & 0xff00u16) == (color as u16) * 256 + 0x20u16,
{
}

/// A printable character goes to the cell under the cursor: row
/// `start_y + y`, column `start_x + x` of the 80-column text screen, in the
/// screen's colour; then the cursor moves one column right (to the start of
/// the next row at the stop column).  A backspace blanks the cell left of
/// the cursor and moves there.  (For screens whose corner plus cursor stays
/// below 256.)
pub proof fn lemma_putc_writes_under_cursor(s: Screen, c: u8)
    requires
        s.x + s.start_x < 256,
        s.y + s.start_y < 256,
    ensures
        32 <= c <= 126 ==> putc_spec(s, c).1 == Some(
            VgaWrite { index: ((s.y + s.start_y) * 80 + s.x + s.start_x) as usize, value: (s.color * 256 + c) as u16 },
        ),
        32 <= c <= 126 && s.x + 1 < s.stop_x ==> putc_spec(s, c).0 == (Screen { x: (s.x + 1) as u8, ..s }),
        32 <= c <= 126 && s.x + 1 >= s.stop_x && s.x < 255 && s.y < 255 ==> putc_spec(s, c).0 == (Screen {
            x: 0,
            y: (s.y + 1) as u8,
            ..s
        }),
        c == 8 && 0 < s.x < s.stop_x ==> putc_spec(s, c) == (
            Screen { x: (s.x - 1) as u8, ..s },
            Some(
                VgaWrite {
                    index: ((s.y + s.start_y) * 80 + s.x - 1 + s.start_x) as usize,
                    value: (s.color * 256 + 0x20) as u16,
                },
            ),
        ),
{
    lemma_cell_value(s.color, c);
}

/// Two cursor positions of a screen (below 256 with the corner added) that
/// differ, inside the 80 columns, are written to different cells.
pub proof fn lemma_cells_distinct(s: Screen, x1: u8, y1: u8, x2: u8, y2: u8)
    requires
        x1 + s.start_x < 80,
        x2 + s.start_x < 80,
        y1 + s.start_y < 256,
        y2 + s.start_y < 256,
        x1 != x2 || y1 != y2,
    ensures
        cell_index(s, x1, y1) != cell_index(s, x2, y2),
{
}

/// The bytes `bytes` put one after the other on screen `s`.
pub open spec fn puts_spec(s: Screen, bytes: Seq<u8>) -> (Screen, Seq<VgaWrite>)
    decreases bytes.len(),
{
    if bytes.len() == 0 {
        (s, Seq::empty())
    } else {
        let (s1, ws) = puts_spec(s, bytes.drop_last());
        let (s2, w) = putc_spec(s1, bytes.last());
        (
            s2,
            match w {
                Some(v) => ws.push(v),
                None => ws,
            },
        )
    }
}

/// The blank cell in colour attribute `color`.
pub open spec fn blank_cell(color: u8) -> u16 {
    ((color as u16) << 8u16) | 0x20u16
}

/// Number of columns (or rows) from `start` up to `stop`.
pub open spec fn span(start: u8, stop: u8) -> int {
    if stop > start {
        stop - start
    } else {
        0
    }
}

/// The writes that blank screen `s`, column by column.
pub open spec fn clear_writes(s: Screen) -> Seq<VgaWrite> {
    let h = span(s.start_y, s.stop_y);
    Seq::new(
        (span(s.start_x, s.stop_x) * h) as nat,
        |k: int|
            VgaWrite {
                index: ((s.start_y + k % h) * 80 + (s.start_x + k / h)) as usize,
                value: blank_cell(s.color),
            },
    )
}

/// The screens of the monitor and how many are in use.
pub struct ScreenSet {
    screens: Vec<Screen>,
    used: u8,
}

impl ScreenSet {
    /// The screens.
    pub closed spec fn screens_view(&self) -> Seq<Screen> {
        self.screens@
    }

    /// How many screens are in use.
    pub closed spec fn used_view(&self) -> u8 {
        self.used
    }

    /// There are 40 screens and at most 40 in use.
    pub closed spec fn wf(&self) -> bool {
        self.screens.len() == MAX_SCREENS && self.used as int <= MAX_SCREENS
    }

    /// A consistent set has forty screens, at most forty of them in use.
    pub proof fn lemma_wf(&self)
        requires
            self.wf(),
        ensures
            self.screens_view().len() == MAX_SCREENS,
            self.used_view() as int <= MAX_SCREENS,
    {
    }

    /// Forty screens, none in use.
    pub fn new() -> (set: ScreenSet)
        ensures
            set.wf(),
            set.used_view() == 0,
            set.screens_view() == Seq::new(MAX_SCREENS as nat, |i: int| default_screen()),
    {
        let mut screens: Vec<Screen> = Vec::new();
        while screens.len() < MAX_SCREENS
            invariant
                screens.len() <= MAX_SCREENS,
                forall|i: int| 0 <= i < screens.len() ==> #[trigger] screens@[i] == default_screen(),
            decreases MAX_SCREENS - screens.len(),
        {
            screens.push(Screen { x: 0, y: 0, color: 0, tab_sz: 4, stop_x: 80, stop_y: 24, start_x: 0, start_y: 0 });
        }
        let set = ScreenSet { screens, used: 0 };
        assert(set.screens_view() =~= Seq::new(MAX_SCREENS as nat, |i: int| default_screen()));
        set
    }

    /// Screen `ind`.
    pub fn screen(&self, ind: u8) -> (s: Screen)
        requires
            self.wf(),
            (ind as int) < MAX_SCREENS,
        ensures
            s == self.screens_view()[ind as int],
    {
        self.screens[ind as usize]
    }

    /// Number of screens in use.
    pub fn used(&self) -> (n: u8)
        ensures
            n == self.used_view(),
    {
        self.used
    }
}

/// One character on a screen value.
fn put_char(s: Screen, c: u8) -> (r: (Screen, Option<VgaWrite>))
    ensures
        r == putc_spec(s, c),
{
    let att: u16 = ((s.color as u16) << 8) | (c as u16);
    let mut t = s;
    let mut w: Option<VgaWrite> = None;
    if c == 8 && s.x > 0 {
        t.x = s.x - 1;
        let index = (t.y.wrapping_add(t.start_y) as usize) * 80 + (t.x.wrapping_add(t.start_x) as usize);
        w = Some(VgaWrite { index, value: 0x20u16 | (att & 0xff00) });
    } else if c == 9 {
        t.x = s.x.wrapping_add(s.tab_sz) & !s.tab_sz.wrapping_sub(1);
    } else if c == 13 {
        t.x = s.start_x;
    } else if c == 10 {
        t.x = s.start_x;
        t.y = s.y.wrapping_add(1);
    } else if c >= 32 && c <= 126 {
        let index = (s.y.wrapping_add(s.start_y) as usize) * 80 + (s.x.wrapping_add(s.start_x) as usize);
        w = Some(VgaWrite { index, value: (c as u16) | att });
        t.x = s.x.wrapping_add(1);
    }
    if t.x >= t.stop_x {
        t.x = 0;
        t.y = t.y.wrapping_add(1);
    }
    (t, w)
}

/// Puts one character on screen `ind`: the cell written, if any.
pub fn putc(set: &mut ScreenSet, c: u8, ind: u8) -> (w: Option<VgaWrite>)
    requires
        old(set).wf(),
        (ind as int) < MAX_SCREENS,
    ensures
        final(set).wf(),
        final(set).used_view() == old(set).used_view(),
        (final(set).screens_view()[ind as int], w) == putc_spec(old(set).screens_view()[ind as int], c),
        final(set).screens_view() == old(set).screens_view().update(
            ind as int,
            putc_spec(old(set).screens_view()[ind as int], c).0,
        ),
{
    let s = set.screens[ind as usize];
    let (t, w) = put_char(s, c);
    set.screens.set(ind as usize, t);
    w
}

/// Puts the first `n` bytes of `bytes` on screen `ind`.
fn put_prefix(set: &mut ScreenSet, bytes: &[u8], n: usize, ind: u8) -> (ws: Vec<VgaWrite>)
    requires
        old(set).wf(),
        (ind as int) < MAX_SCREENS,
        n <= bytes.len(),
    ensures
        final(set).wf(),
        final(set).used_view() == old(set).used_view(),
        (final(set).screens_view()[ind as int], ws@) == puts_spec(old(set).screens_view()[ind as int], bytes@.take(n as int)),
        final(set).screens_view() == old(set).screens_view().update(
            ind as int,
            puts_spec(old(set).screens_view()[ind as int], bytes@.take(n as int)).0,
        ),
{
    let mut ws: Vec<VgaWrite> = Vec::new();
    let mut i: usize = 0;
    let ghost s0 = set.screens_view()[ind as int];
    assert(bytes@.take(0) =~= Seq::<u8>::empty());
    while i < n
        invariant
            set.wf(),
            (ind as int) < MAX_SCREENS,
            i <= n <= bytes.len(),
            set.used_view() == old(set).used_view(),
            s0 == old(set).screens_view()[ind as int],
            (set.screens_view()[ind as int], ws@) == puts_spec(s0, bytes@.take(i as int)),
            set.screens_view().len() == old(set).screens_view().len(),
            forall|j: int| 0 <= j < MAX_SCREENS && j != ind ==> set.screens_view()[j] == old(set).screens_view()[j],
        decreases n - i,
    {
        let w = putc(set, bytes[i], ind);
        proof {
            assert(bytes@.take(i + 1).drop_last() =~= bytes@.take(i as int));
        }
        match w {
            Some(v) => ws.push(v),
            None => {},
        }
        i = i + 1;
    }
    assert(set.screens_view() =~= old(set).screens_view().update(ind as int, set.screens_view()[ind as int]));
    ws
}

/// Puts the bytes `bytes` on screen `ind`: the cells written, in order.
pub fn write_string(set: &mut ScreenSet, bytes: &[u8], ind: u8) -> (ws: Vec<VgaWrite>)
    requires
        old(set).wf(),
        (ind as int) < MAX_SCREENS,
    ensures
        final(set).wf(),
        final(set).used_view() == old(set).used_view(),
        (final(set).screens_view()[ind as int], ws@) == puts_spec(old(set).screens_view()[ind as int], bytes@),
        final(set).screens_view() == old(set).screens_view().update(
            ind as int,
            puts_spec(old(set).screens_view()[ind as int], bytes@).0,
        ),
{
    assert(bytes@.take(bytes.len() as int) =~= bytes@);
    put_prefix(set, bytes, bytes.len(), ind)
}

/// The colour attribute for foreground `fg` on background `bg`.
pub open spec fn color_attr(fg: u8, bg: u8) -> u8 {
    fg | (bg << 4u8)
}

proof fn lemma_clear_index(s: Screen, i: int, j: int)
    requires
        s.start_x <= i < s.stop_x,
        s.start_y <= j < s.stop_y,
    ensures
        ({
            let h = span(s.start_y, s.stop_y);
            let k = (i - s.start_x) * h + (j - s.start_y);
            &&& 0 <= k < span(s.start_x, s.stop_x) * h
            &&& k % h == j - s.start_y
            &&& k / h == i - s.start_x
        }),
{
    let h = span(s.start_y, s.stop_y);
    let k = (i - s.start_x) * h + (j - s.start_y);
    lemma_fundamental_div_mod_converse(k, h, i - s.start_x, j - s.start_y);
    assert(0 <= k < span(s.start_x, s.stop_x) * h) by (nonlinear_arith)
        requires
            k == (i - s.start_x) * h + (j - s.start_y),
            0 <= i - s.start_x < span(s.start_x, s.stop_x),
            0 <= j - s.start_y < h,
    ;
}

/// Blanks screen `ind` in its colour, column by column, and puts its cursor
/// at the top left.
pub fn clear_screen(set: &mut ScreenSet, ind: u8) -> (ws: Vec<VgaWrite>)
    requires
        old(set).wf(),
        (ind as int) < MAX_SCREENS,
    ensures
        final(set).wf(),
        final(set).used_view() == old(set).used_view(),
        ws@ == clear_writes(old(set).screens_view()[ind as int]),
        final(set).screens_view() == old(set).screens_view().update(
            ind as int,
            Screen { x: 0, y: 0, ..old(set).screens_view()[ind as int] },
        ),
{
    let s = set.screens[ind as usize];
    let blank: u16 = ((s.color as u16) << 8) | 0x20;
    let ghost h = span(s.start_y, s.stop_y);
    let ghost all = clear_writes(s);
    let mut ws: Vec<VgaWrite> = Vec::new();
    let mut i: u8 = s.start_x;
    while i < s.stop_x
        invariant
            s.start_x <= i,
            i <= s.stop_x || s.stop_x <= s.start_x,
            s.stop_x <= s.start_x ==> i == s.start_x,
            h == span(s.start_y, s.stop_y),
            all == clear_writes(s),
            blank == blank_cell(s.color),
            ws.len() == span(s.start_x, i) * h,
            forall|k: int| 0 <= k < ws.len() ==> #[trigger] ws@[k] == all[k],
        decreases s.stop_x - i,
    {
        let mut j: u8 = s.start_y;
        while j < s.stop_y
            invariant
                s.start_x <= i < s.stop_x,
                s.start_y <= j,
                j <= s.stop_y || s.stop_y <= s.start_y,
                s.stop_y <= s.start_y ==> j == s.start_y,
                h == span(s.start_y, s.stop_y),
                all == clear_writes(s),
                blank == blank_cell(s.color),
                ws.len() == span(s.start_x, i) * h + span(s.start_y, j),
                forall|k: int| 0 <= k < ws.len() ==> #[trigger] ws@[k] == all[k],
            decreases s.stop_y - j,
        {
            proof {
                lemma_clear_index(s, i as int, j as int);
                assert(span(s.start_x, i) == i - s.start_x);
            }
            ws.push(VgaWrite { index: (j as usize) * 80 + (i as usize), value: blank });
            j = j + 1;
        }
        proof {
            assert(span(s.start_y, j) == h);
            assert(span(s.start_x, i) * h + h == span(s.start_x, (i + 1) as u8) * h) by (nonlinear_arith)
                requires
                    s.start_x <= i < s.stop_x,
                    span(s.start_x, i) == i - s.start_x,
                    span(s.start_x, (i + 1) as u8) == i + 1 - s.start_x,
            ;
        }
        i = i + 1;
    }
    proof {
        assert(span(s.start_x, i) == span(s.start_x, s.stop_x));
    }
    assert(ws@ =~= all);
    let mut t = s;
    t.x = 0;
    t.y = 0;
    set.screens.set(ind as usize, t);
    ws
}

/// Sets up the next free screen over columns `startx..stopx` and rows
/// `starty..stopy` in foreground `fg` on background `bg`, and blanks it.
pub fn add_screen(set: &mut ScreenSet, startx: u8, starty: u8, stopx: u8, stopy: u8, fg: u8, bg: u8) -> (ws: Vec<VgaWrite>)
    requires
        old(set).wf(),
        (old(set).used_view() as int) < MAX_SCREENS,
    ensures
        final(set).wf(),
        final(set).used_view() == old(set).used_view() + 1,
        ({
            let s = Screen {
                color: color_attr(fg, bg),
                start_x: startx,
                start_y: starty,
                stop_x: stopx,
                stop_y: stopy,
                x: 0,
                y: 0,
                ..old(set).screens_view()[old(set).used_view() as int]
            };
            &&& ws@ == clear_writes(s)
            &&& final(set).screens_view() == old(set).screens_view().update(old(set).used_view() as int, s)
        }),
{
    let u = set.used;
    let mut s = set.screens[u as usize];
    s.color = fg | (bg << 4);
    s.start_x = startx;
    s.start_y = starty;
    s.stop_x = stopx;
    s.stop_y = stopy;
    s.x = 0;
    s.y = 0;
    set.screens.set(u as usize, s);
    let ws = clear_screen(set, u);
    set.used = u + 1;
    proof {
        assert(Screen { x: 0, y: 0, ..s } == s);
        assert(set.screens_view() =~= old(set).screens_view().update(u as int, s));
    }
    ws
}

/// The writes that fill the monitor with blanks.
pub open spec fn monitor_writes(fg: u8, bg: u8) -> Seq<VgaWrite> {
    Seq::new(
        (VGA_WIDTH * VGA_HEIGHT) as nat,
        |i: int| VgaWrite { index: i as usize, value: blank_cell(color_attr(fg, bg)) },
    )
}

/// Fills the monitor with blanks in foreground `fg` on background `bg`; the
/// port words hide the cursor.
pub fn initialize_monitor(fg: u8, bg: u8) -> (r: (Vec<VgaWrite>, Vec<PortWriteWord>))
    ensures
        r.0@ == monitor_writes(fg, bg),
        r.1@ == seq![PortWriteWord { port: 0x3D4, value: 0x200A }, PortWriteWord { port: 0x3D4, value: 0xB }],
{
    let color: u8 = fg | (bg << 4);
    let blank: u16 = ((color as u16) << 8) | 0x20;
    let mut ws: Vec<VgaWrite> = Vec::new();
    let mut i: usize = 0;
    while i < VGA_WIDTH * VGA_HEIGHT
        invariant
            i <= VGA_WIDTH * VGA_HEIGHT,
            ws.len() == i,
            blank == blank_cell(color_attr(fg, bg)),
            forall|k: int| 0 <= k < i ==> #[trigger] ws@[k] == monitor_writes(fg, bg)[k],
        decreases VGA_WIDTH * VGA_HEIGHT - i,
    {
        ws.push(VgaWrite { index: i, value: blank });
        i = i + 1;
    }
    assert(ws@ =~= monitor_writes(fg, bg));
    let mut ports = Vec::new();
    ports.push(PortWriteWord { port: 0x3D4, value: 0x200A });
    ports.push(PortWriteWord { port: 0x3D4, value: 0xB });
    assert(ports@ =~= seq![PortWriteWord { port: 0x3D4, value: 0x200A }, PortWriteWord { port: 0x3D4, value: 0xB }]);
    (ws, ports)
}

/// The bytes of `bytes` before its first zero byte.
pub open spec fn cstr(bytes: Seq<u8>) -> Seq<u8> {
    bytes.take(cstr_len(bytes, 0))
}

/// The position of the first zero byte at or after `i` (or the length).
pub open spec fn cstr_len(bytes: Seq<u8>, i: int) -> int
    decreases bytes.len() - i,
{
    if i < 0 || i >= bytes.len() || bytes[i] == 0 {
        i
    } else {
        cstr_len(bytes, i + 1)
    }
}

/// Some byte of `bytes` is zero.
pub open spec fn has_nul(bytes: Seq<u8>) -> bool {
    exists|k: int| 0 <= k < bytes.len() && bytes[k] == 0
}

proof fn lemma_cstr_len(bytes: Seq<u8>, i: int)
    requires
        0 <= i <= bytes.len(),
        forall|k: int| 0 <= k < i ==> bytes[k] != 0,
    ensures
        i <= cstr_len(bytes, i) <= bytes.len(),
        cstr_len(bytes, i) < bytes.len() ==> bytes[cstr_len(bytes, i)] == 0,
        forall|k: int| 0 <= k < cstr_len(bytes, i) ==> bytes[k] != 0,
    decreases bytes.len() - i,
{
    if i < bytes.len() && bytes[i] != 0 {
        lemma_cstr_len(bytes, i + 1);
    }
}

/// Puts the bytes of `bytes` before its first zero byte on screen `ind`.
pub fn write_cstr(set: &mut ScreenSet, bytes: &[u8], ind: u8) -> (ws: Vec<VgaWrite>)
    requires
        old(set).wf(),
        (ind as int) < MAX_SCREENS,
        has_nul(bytes@),
    ensures
        final(set).wf(),
        final(set).used_view() == old(set).used_view(),
        (final(set).screens_view()[ind as int], ws@) == puts_spec(old(set).screens_view()[ind as int], cstr(bytes@)),
        final(set).screens_view() == old(set).screens_view().update(
            ind as int,
            puts_spec(old(set).screens_view()[ind as int], cstr(bytes@)).0,
        ),
{
    proof {
        lemma_cstr_len(bytes@, 0);
        if cstr_len(bytes@, 0) == bytes.len() {
            let k = choose|k: int| 0 <= k < bytes@.len() && bytes@[k] == 0;
            assert(bytes@[k] != 0);
        }
    }
    let mut l: usize = 0;
    while bytes[l] != 0
        invariant
            l <= cstr_len(bytes@, 0) < bytes.len(),
            bytes@[cstr_len(bytes@, 0)] == 0,
            forall|k: int| 0 <= k < cstr_len(bytes@, 0) ==> bytes@[k] != 0,
        decreases cstr_len(bytes@, 0) - l,
    {
        l = l + 1;
    }
    put_prefix(set, bytes, l, ind)
}

/// Puts `num` in base `base` on screen `ind`.
pub fn write_int(set: &mut ScreenSet, num: i32, base: i32, ind: u8) -> (ws: Vec<VgaWrite>)
    requires
        old(set).wf(),
        (ind as int) < MAX_SCREENS,
        num != i32::MIN,
        abs_int(base as int) >= 2,
        digits_printable(num as int, base as int),
    ensures
        final(set).wf(),
        final(set).used_view() == old(set).used_view(),
        (final(set).screens_view()[ind as int], ws@) == puts_spec(
            old(set).screens_view()[ind as int],
            int_text(num as int, base as int),
        ),
        final(set).screens_view() == old(set).screens_view().update(
            ind as int,
            puts_spec(old(set).screens_view()[ind as int], int_text(num as int, base as int)).0,
        ),
{
    let m = to_str_bytes(num, base);
    let ghost t = int_text(num as int, base as int);
    proof {
        lemma_int_text_shape(num, base);
        assert(m@[t.len() as int] == 0);
        lemma_cstr_len(m@, 0);
        if cstr_len(m@, 0) < t.len() {
            assert(m@[cstr_len(m@, 0)] == t[cstr_len(m@, 0)]);
        }
        if cstr_len(m@, 0) > t.len() {
            assert(m@[t.len() as int] != 0);
        }
        assert(cstr(m@) =~= t);
    }
    write_cstr(set, m.as_slice(), ind)
}

} // verus!
