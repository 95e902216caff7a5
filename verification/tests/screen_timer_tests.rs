use lib::isr::HandlerTable;
use lib::kernel::{PortWrite, PortWriteWord};
use lib::screen::{
    add_screen, clear_screen, initialize_monitor, putc, write_cstr, write_int, write_string, Color, ScreenSet,
    VgaWrite,
};
use lib::timer::{
    clock_bytes, handle_timer_interrupt, inc_clock, init, normalize_clock, read_rtc_clock, write_clock, Clock,
    TimerState,
};

fn input_screen() -> ScreenSet {
    let mut set = ScreenSet::new();
    add_screen(&mut set, 1, 1, 79, 4, Color::Black.value(), Color::LightGray.value());
    set
}

#[test]
fn color_numbers() {
    assert_eq!(Color::Black.value(), 0);
    assert_eq!(Color::Cyan.value(), 3);
    assert_eq!(Color::LightGray.value(), 7);
    assert_eq!(Color::Yellow.value(), 14);
    assert_eq!(Color::White.value(), 15);
}

#[test]
fn add_screen_blanks_its_rectangle() {
    let mut set = ScreenSet::new();
    let ws = add_screen(&mut set, 1, 1, 79, 4, 0, 7);
    assert_eq!(set.used(), 1);
    assert_eq!(ws.len(), 78 * 3);
    assert_eq!(ws[0], VgaWrite { index: 81, value: 0x7020 });
    assert_eq!(ws[1], VgaWrite { index: 161, value: 0x7020 });
    assert_eq!(ws[3], VgaWrite { index: 82, value: 0x7020 });
    let s = set.screen(0);
    assert_eq!((s.x, s.y, s.color, s.start_x, s.stop_x, s.tab_sz), (0, 0, 0x70, 1, 79, 4));
}

#[test]
fn putc_writes_and_moves() {
    let mut set = input_screen();
    assert_eq!(putc(&mut set, b'A', 0), Some(VgaWrite { index: 81, value: 0x7041 }));
    assert_eq!(set.screen(0).x, 1);
    // backspace blanks the previous cell
    assert_eq!(putc(&mut set, 8, 0), Some(VgaWrite { index: 81, value: 0x7020 }));
    assert_eq!(set.screen(0).x, 0);
    // backspace at the start does nothing
    assert_eq!(putc(&mut set, 8, 0), None);
    // tab to the next multiple of 4
    putc(&mut set, b'x', 0);
    assert_eq!(putc(&mut set, 9, 0), None);
    assert_eq!(set.screen(0).x, 4);
    // newline: back to the start column, one row down
    putc(&mut set, b'\n', 0);
    assert_eq!((set.screen(0).x, set.screen(0).y), (1, 1));
    // carriage return
    putc(&mut set, b'q', 0);
    putc(&mut set, b'\r', 0);
    assert_eq!((set.screen(0).x, set.screen(0).y), (1, 1));
    // unprintable bytes do nothing
    assert_eq!(putc(&mut set, 0x7f, 0), None);
}

#[test]
fn law_cursor_wraps_at_stop_column() {
    let mut set = ScreenSet::new();
    add_screen(&mut set, 0, 0, 3, 2, 15, 0);
    for _ in 0..3 {
        putc(&mut set, b'z', 0);
        assert!(set.screen(0).x < 3);
    }
    assert_eq!((set.screen(0).x, set.screen(0).y), (0, 1));
}

#[test]
fn clear_resets_cursor() {
    let mut set = input_screen();
    write_string(&mut set, b"12", 0);
    let ws = clear_screen(&mut set, 0);
    assert_eq!(ws.len(), 234);
    assert_eq!((set.screen(0).x, set.screen(0).y), (0, 0));
}

#[test]
fn strings_and_numbers() {
    let mut set = input_screen();
    let ws = write_string(&mut set, b"= ", 0);
    assert_eq!(ws, vec![VgaWrite { index: 81, value: 0x703D }, VgaWrite { index: 82, value: 0x7020 }]);
    let ws = write_int(&mut set, -255, 16, 0);
    let chars: Vec<u8> = ws.iter().map(|w| (w.value & 0xff) as u8).collect();
    assert_eq!(chars, b"-FF".to_vec());
    assert_eq!(ws[0].index, 83);
    let ws = write_cstr(&mut set, b"ok\0junk", 0);
    assert_eq!(ws.len(), 2);
}

#[test]
fn monitor_fill() {
    let (ws, ports) = initialize_monitor(Color::White.value(), Color::Blue.value());
    assert_eq!(ws.len(), 80 * 24);
    assert!(ws.iter().enumerate().all(|(i, w)| w.index == i && w.value == 0x1F20));
    assert_eq!(
        ports,
        vec![PortWriteWord { port: 0x3D4, value: 0x200A }, PortWriteWord { port: 0x3D4, value: 0xB }]
    );
}

fn clock(secs: u8, mins: u8, hour: u8, day: u8, month: u8, year: u8) -> Clock {
    Clock { secs, mins, hour, day, month, year }
}

#[test]
fn clock_advances() {
    let mut c = clock(58, 0, 0, 1, 1, 20);
    inc_clock(&mut c);
    assert_eq!(c, clock(59, 0, 0, 1, 1, 20));
    inc_clock(&mut c);
    assert_eq!(c, clock(0, 1, 0, 1, 1, 20));
    let mut d = clock(59, 59, 23, 28, 2, 21);
    inc_clock(&mut d);
    assert_eq!(d, clock(0, 0, 0, 1, 3, 21));
    let mut e = clock(59, 59, 23, 31, 12, 99);
    inc_clock(&mut e);
    assert_eq!(e, clock(0, 0, 0, 1, 1, 100));
    let mut f = clock(59, 59, 23, 30, 4, 5);
    inc_clock(&mut f);
    assert_eq!(f, clock(0, 0, 0, 1, 5, 5));
    let mut g = clock(59, 59, 23, 30, 1, 5);
    inc_clock(&mut g);
    assert_eq!(g, clock(0, 0, 0, 31, 1, 5));
}

#[test]
fn law_valid_clock_stays_valid() {
    let days = [31u8, 28, 31, 30, 31, 30, 31, 31, 30, 31, 30, 31];
    let mut c = clock(50, 59, 23, 31, 12, 9);
    for _ in 0..(3 * 24 * 3600) {
        inc_clock(&mut c);
        assert!(c.secs < 60 && c.mins < 60 && c.hour < 24);
        assert!((1..=12).contains(&c.month));
        assert!(c.day >= 1 && c.day <= days[(c.month - 1) as usize]);
    }
}

#[test]
fn bcd_conversion() {
    let raw = clock(0x59, 0x07, 0x92, 0x31, 0x12, 0x99);
    assert_eq!(normalize_clock(raw, 0x02), clock(59, 7, 12, 31, 12, 99));
    // binary mode leaves the values
    assert_eq!(normalize_clock(raw, 0x06), raw);
}

#[test]
fn clock_text() {
    assert_eq!(clock_bytes(clock(5, 4, 3, 2, 1, 0)), b"02/01-00 03:04:05".to_vec());
    assert_eq!(clock_bytes(clock(59, 30, 23, 31, 12, 99)), b"31/12-99 23:30:59".to_vec());
}

#[test]
fn clock_on_screen() {
    let mut set = input_screen();
    let ws = write_clock(&mut set, clock(5, 4, 3, 2, 1, 0), 0);
    assert_eq!(ws.len(), 234 + 17);
    assert_eq!(ws[234], VgaWrite { index: 81, value: 0x7030 });
}

#[test]
fn timer_setup() {
    let mut t = TimerState::new();
    let mut table: HandlerTable<u8> = HandlerTable::new(0);
    let w = init(&mut t, &mut table, 5, 100);
    assert_eq!(t.ticks_per_sec, 100);
    assert_eq!(table.handler(32), 5);
    // 1193180 / 100 = 11931 = 0x2E9B
    assert_eq!(
        w,
        vec![
            PortWrite { port: 0x43, value: 0x34 },
            PortWrite { port: 0x40, value: 0x9B },
            PortWrite { port: 0x40, value: 0x2E }
        ]
    );
}

#[test]
fn timer_ticks_and_seconds() {
    let mut set = input_screen();
    let mut t = TimerState::new();
    let mut table: HandlerTable<u8> = HandlerTable::new(0);
    init(&mut t, &mut table, 1, 3);
    read_rtc_clock(&mut t, &mut set, clock(0x10, 0, 0, 1, 1, 0), 0, 0);
    assert_eq!(t.current_time, clock(10, 0, 0, 1, 1, 0));
    assert!(handle_timer_interrupt(&mut t, &mut set).is_empty());
    assert!(handle_timer_interrupt(&mut t, &mut set).is_empty());
    let ws = handle_timer_interrupt(&mut t, &mut set);
    assert_eq!(ws.len(), 234 + 17);
    assert_eq!(t.tick, 3);
    assert_eq!(t.current_time, clock(11, 0, 0, 1, 1, 0));
}
