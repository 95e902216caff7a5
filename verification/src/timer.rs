use vstd::prelude::*;
use vstd::wrapping::{u8_specs, u32_specs};
use crate::kernel::PortWrite;
use crate::isr::{HandlerTable, register_interrupt_handler};
use crate::screen::{
    ScreenSet, VgaWrite, Screen, MAX_SCREENS, clear_screen, write_string, clear_writes, puts_spec,
};

verus! {

/// A calendar time as the real-time clock keeps it (year within the century).
#[derive(Clone, Copy, Debug, PartialEq, Eq, Structural)]
pub struct Clock {
    pub secs: u8,
    pub mins: u8,
    pub hour: u8,
    pub day: u8,
    pub month: u8,
    pub year: u8,
}

/// Days in month `m` (1..=12), leap years not counted.
pub open spec fn days_in_month(m: int) -> u8 {
    if m == 2 {
        28
    } else if m == 4 || m == 6 || m == 9 || m == 11 {
        30
    } else {
        31
    }
}

fn days_in_month_exec(m: u8) -> (d: u8)
    ensures
        d == days_in_month(m as int),
{
    if m == 2 {
        28
    } else if m == 4 || m == 6 || m == 9 || m == 11 {
        30
    } else {
        31
    }
}

/// Whether one more second reaches the day's end, where the month is looked up.
pub open spec fn rolls_day(c: Clock) -> bool {
    u8_specs::wrapping_add(c.secs, 1) >= 60 && u8_specs::wrapping_add(c.mins, 1) >= 60
        && u8_specs::wrapping_add(c.hour, 1) >= 24
}

/// The clock one second later: each field that reaches its limit (60
/// seconds, 60 minutes, 24 hours, the month's days, 12 months) starts over
/// and carries into the next.  The fields wrap at 256.
pub open spec fn inc_clock_spec(c: Clock) -> Clock {
    let secs = u8_specs::wrapping_add(c.secs, 1);
    if secs < 60 {
        Clock { secs, ..c }
    } else {
        let mins = u8_specs::wrapping_add(c.mins, 1);
        if mins < 60 {
            Clock { secs: 0, mins, ..c }
        } else {
            let hour = u8_specs::wrapping_add(c.hour, 1);
            if hour < 24 {
                Clock { secs: 0, mins: 0, hour, ..c }
            } else {
                let day = u8_specs::wrapping_add(c.day, 1);
                if day <= days_in_month(c.month as int) {
                    Clock { secs: 0, mins: 0, hour: 0, day, ..c }
                } else if c.month + 1 <= 12 {
                    Clock { secs: 0, mins: 0, hour: 0, day: 1, month: (c.month + 1) as u8, ..c }
                } else {
                    Clock {
                        secs: 0,
                        mins: 0,
                        hour: 0,
                        day: 1,
                        month: 1,
                        year: u8_specs::wrapping_add(c.year, 1),
                    }
                }
            }
        }
    }
}

/// Advances the clock by one second.  The month is looked up only when the
/// day ends, and must then be 1..=12.
pub fn inc_clock(c: &mut Clock)
    requires
        rolls_day(*old(c)) ==> 1 <= old(c).month <= 12,
    ensures
        *final(c) == inc_clock_spec(*old(c)),
{
    c.secs = c.secs.wrapping_add(1);
    if c.secs >= 60 {
        c.secs = 0;
        c.mins = c.mins.wrapping_add(1);
        if c.mins >= 60 {
            c.mins = 0;
            c.hour = c.hour.wrapping_add(1);
            if c.hour >= 24 {
                c.hour = 0;
                c.day = c.day.wrapping_add(1);
                if c.day > days_in_month_exec(c.month) {
                    c.day = 1;
                    c.month = c.month + 1;
                    if c.month > 12 {
                        c.month = 1;
                        c.year = c.year.wrapping_add(1);
                    }
                }
            }
        }
    }
}

/// A clock that names a real moment: seconds, minutes and hours in range,
/// a month 1..=12 and a day of that month.
pub open spec fn valid_clock(c: Clock) -> bool {
    &&& c.secs < 60
    &&& c.mins < 60
    &&& c.hour < 24
    &&& 1 <= c.month <= 12
    &&& 1 <= c.day <= days_in_month(c.month as int)
}

/// Advancing a valid clock by a second gives a valid clock (and never
/// looks up a month out of range).
pub proof fn lemma_inc_clock_valid(c: Clock)
    requires
        valid_clock(c),
    ensures
        rolls_day(c) ==> 1 <= c.month <= 12,
        valid_clock(inc_clock_spec(c)),
{
}

/// The calendar's month lengths, January to December (leap years not
/// counted).
pub open spec fn month_lengths() -> Seq<u8> {
    seq![31u8, 28u8, 31u8, 30u8, 31u8, 30u8, 31u8, 31u8, 30u8, 31u8, 30u8, 31u8]
}

/// The days of each month are those of the calendar.
pub proof fn lemma_days_in_month_calendar(m: int)
    requires
        1 <= m <= 12,
    ensures
        days_in_month(m) == month_lengths()[m - 1],
{
    let t = month_lengths();
    if m == 1 { assert(t[0] == 31); }
    else if m == 2 { assert(t[1] == 28); }
    else if m == 3 { assert(t[2] == 31); }
    else if m == 4 { assert(t[3] == 30); }
    else if m == 5 { assert(t[4] == 31); }
    else if m == 6 { assert(t[5] == 30); }
    else if m == 7 { assert(t[6] == 31); }
    else if m == 8 { assert(t[7] == 31); }
    else if m == 9 { assert(t[8] == 30); }
    else if m == 10 { assert(t[9] == 31); }
    else if m == 11 { assert(t[10] == 30); }
    else { assert(t[11] == 31); }
}

/// The second after 23:59:59 of a valid clock starts the next calendar day:
/// the next day of the month while the month (by the calendar) has one, else
/// the first of the next month, or of January of the next year.
pub proof fn lemma_inc_clock_next_day(c: Clock)
    requires
        valid_clock(c),
        c.secs == 59,
        c.mins == 59,
        c.hour == 23,
    ensures
        ({
            let n = inc_clock_spec(c);
            &&& n.secs == 0 && n.mins == 0 && n.hour == 0
            &&& (c.day < month_lengths()[c.month - 1] ==> n.day == c.day + 1 && n.month == c.month && n.year == c.year)
            &&& (c.day == month_lengths()[c.month - 1] && c.month < 12 ==> n.day == 1 && n.month == c.month + 1
                && n.year == c.year)
            &&& (c.day == month_lengths()[c.month - 1] && c.month == 12 ==> n.day == 1 && n.month == 1
                && n.year == u8_specs::wrapping_add(c.year, 1))
        }),
{
    lemma_days_in_month_calendar(c.month as int);
}

/// A field in binary-coded decimal as a number.
pub open spec fn bcd(v: u8) -> u8 {
    ((v & 0x0F) + (v / 16) * 10) as u8
}

/// The clock as read from the chip: unless status register B says binary
/// (bit 2), every field is in BCD (the hour's bit 7, the PM flag, dropped).
pub open spec fn normalize_clock_spec(cl: Clock, reg_b: u8) -> Clock {
    if reg_b & 0x04 == 0 {
        Clock {
            secs: bcd(cl.secs),
            mins: bcd(cl.mins),
            hour: ((cl.hour & 0x0F) + ((cl.hour & 0x70) / 16) * 10) as u8,
            day: bcd(cl.day),
            month: bcd(cl.month),
            year: bcd(cl.year),
        }
    } else {
        cl
    }
}

proof fn lemma_bcd_fits(v: u8)
    ensures
        (v & 0x0F) + (v / 16) * 10 <= 255,
        (v & 0x0F) + ((v & 0x70) / 16) * 10 <= 255,
{
    assert(v & 0x0F <= 15) by (bit_vector);
    assert(v & 0x70 <= 0x70) by (bit_vector);
}

/// Converts the clock read from the chip, with status register B `reg_b`.
pub fn normalize_clock(cl: Clock, reg_b: u8) -> (c: Clock)
    ensures
        c == normalize_clock_spec(cl, reg_b),
{
    let mut c = cl;
    if reg_b & 0x04 == 0 {
        proof {
            lemma_bcd_fits(cl.secs);
            lemma_bcd_fits(cl.mins);
            lemma_bcd_fits(cl.hour);
            lemma_bcd_fits(cl.day);
            lemma_bcd_fits(cl.month);
            lemma_bcd_fits(cl.year);
        }
        c.secs = (cl.secs & 0x0F) + ((cl.secs / 16) * 10);
        c.mins = (cl.mins & 0x0F) + ((cl.mins / 16) * 10);
        c.hour = (cl.hour & 0x0F) + (((cl.hour & 0x70) / 16) * 10);
        c.day = (cl.day & 0x0F) + ((cl.day / 16) * 10);
        c.month = (cl.month & 0x0F) + ((cl.month / 16) * 10);
        c.year = (cl.year & 0x0F) + ((cl.year / 16) * 10);
    }
    c
}

/// Two digits of `n`: its tens (which may pass 9) and its units.
pub open spec fn digits_text(n: u8) -> Seq<u8> {
    seq![(n / 10 + 48) as u8, (n - (n / 10) * 10 + 48) as u8]
}

/// The clock as shown: `DD/MM-YY HH:MM:SS`.
pub open spec fn clock_text(cl: Clock) -> Seq<u8> {
    digits_text(cl.day) + seq![47u8] + digits_text(cl.month) + seq![45u8] + digits_text(cl.year)
        + seq![32u8] + digits_text(cl.hour) + seq![58u8] + digits_text(cl.mins) + seq![58u8]
        + digits_text(cl.secs)
}

fn push_digits(t: &mut Vec<u8>, n: u8)
    ensures
        final(t)@ == old(t)@ + digits_text(n),
{
    t.push(n / 10 + 48);
    t.push(n - (n / 10) * 10 + 48);
    assert(t@ =~= old(t)@ + digits_text(n));
}

/// The text of the clock.
pub fn clock_bytes(cl: Clock) -> (t: Vec<u8>)
    ensures
        t@ == clock_text(cl),
{
    let mut t = Vec::new();
    push_digits(&mut t, cl.day);
    t.push(47);
    push_digits(&mut t, cl.month);
    t.push(45);
    push_digits(&mut t, cl.year);
    t.push(32);
    push_digits(&mut t, cl.hour);
    t.push(58);
    push_digits(&mut t, cl.mins);
    t.push(58);
    push_digits(&mut t, cl.secs);
    assert(t@ =~= clock_text(cl));
    t
}

/// Clears screen `scr` and shows the clock on it.
pub fn write_clock(set: &mut ScreenSet, cl: Clock, scr: u8) -> (ws: Vec<VgaWrite>)
    requires
        old(set).wf(),
        (scr as int) < MAX_SCREENS,
    ensures
        final(set).wf(),
        final(set).used_view() == old(set).used_view(),
        ({
            let cleared = Screen { x: 0, y: 0, ..old(set).screens_view()[scr as int] };
            let (s2, text_ws) = puts_spec(cleared, clock_text(cl));
            &&& ws@ == clear_writes(old(set).screens_view()[scr as int]) + text_ws
            &&& final(set).screens_view() == old(set).screens_view().update(scr as int, s2)
        }),
{
    proof {
        set.lemma_wf();
    }
    let ghost cleared = Screen { x: 0, y: 0, ..old(set).screens_view()[scr as int] };
    let mut ws = clear_screen(set, scr);
    let ghost mid = set.screens_view();
    assert(mid[scr as int] == cleared);
    let t = clock_bytes(cl);
    let ghost ws0 = ws@;
    let mut more = write_string(set, t.as_slice(), scr);
    ws.append(&mut more);
    proof {
        assert(ws@ == ws0 + puts_spec(cleared, clock_text(cl)).1);
        assert(set.screens_view() =~= old(set).screens_view().update(
            scr as int,
            puts_spec(cleared, clock_text(cl)).0,
        ));
    }
    ws
}

/// The timer and the clock it keeps.
pub struct TimerState {
    pub tick: u32,
    pub ticks_per_sec: u32,
    pub current_time: Clock,
    pub scr_ind: u8,
}

impl TimerState {
    /// No ticks yet, one tick a second, the clock at zero, on screen 0.
    pub fn new() -> (t: TimerState)
        ensures
            t.tick == 0,
            t.ticks_per_sec == 1,
            t.current_time == (Clock { secs: 0, mins: 0, hour: 0, day: 0, month: 0, year: 0 }),
            t.scr_ind == 0,
    {
        TimerState {
            tick: 0,
            ticks_per_sec: 1,
            current_time: Clock { secs: 0, mins: 0, hour: 0, day: 0, month: 0, year: 0 },
            scr_ind: 0,
        }
    }
}

/// Input frequency of the programmable interval timer, in Hz.
pub const PIT_FREQUENCY: u32 = 1193180;

/// Vector of the timer's IRQ.
pub const TIMER_VECTOR: u8 = 32;

/// Whether the next tick completes a second.
pub open spec fn next_tick_is_second(t: TimerState) -> bool {
    u32_specs::wrapping_add(t.tick, 1) % t.ticks_per_sec == 0
}

/// One timer tick: counts it, and when a second has passed advances the
/// clock and redraws it.
pub fn handle_timer_interrupt(t: &mut TimerState, set: &mut ScreenSet) -> (ws: Vec<VgaWrite>)
    requires
        old(t).ticks_per_sec > 0,
        (old(t).scr_ind as int) < MAX_SCREENS,
        old(set).wf(),
        next_tick_is_second(*old(t)) && rolls_day(old(t).current_time) ==> 1 <= old(t).current_time.month <= 12,
    ensures
        final(t).tick == u32_specs::wrapping_add(old(t).tick, 1),
        final(t).ticks_per_sec == old(t).ticks_per_sec,
        final(t).scr_ind == old(t).scr_ind,
        final(set).wf(),
        final(set).used_view() == old(set).used_view(),
        next_tick_is_second(*old(t)) ==> final(t).current_time == inc_clock_spec(old(t).current_time),
        !next_tick_is_second(*old(t)) ==> final(t).current_time == old(t).current_time && ws@.len() == 0
            && final(set).screens_view() == old(set).screens_view(),
        next_tick_is_second(*old(t)) ==> {
            let scr = old(t).scr_ind as int;
            let cleared = Screen { x: 0, y: 0, ..old(set).screens_view()[scr] };
            let (s2, text_ws) = puts_spec(cleared, clock_text(final(t).current_time));
            &&& ws@ == clear_writes(old(set).screens_view()[scr]) + text_ws
            &&& final(set).screens_view() == old(set).screens_view().update(scr, s2)
        },
{
    t.tick = t.tick.wrapping_add(1);
    if t.tick % t.ticks_per_sec == 0 {
        inc_clock(&mut t.current_time);
        let cl = t.current_time;
        write_clock(set, cl, t.scr_ind)
    } else {
        Vec::new()
    }
}

/// Registers the timer's handler and sets the timer to `freq` ticks a
/// second: the commands select channel 0 in rate-generator mode and give the
/// divisor's low then high byte.
pub fn init<H: Copy>(t: &mut TimerState, table: &mut HandlerTable<H>, handler: H, freq: u32) -> (w: Vec<PortWrite>)
    requires
        old(table).wf(),
        freq > 0,
    ensures
        final(table).wf(),
        final(table).handlers_view() == old(table).handlers_view().update(TIMER_VECTOR as int, handler),
        final(t).ticks_per_sec == freq,
        final(t).tick == old(t).tick,
        final(t).current_time == old(t).current_time,
        final(t).scr_ind == old(t).scr_ind,
        ({
            let div = PIT_FREQUENCY / freq;
            w@ == seq![
                PortWrite { port: 0x43, value: 0x34 },
                PortWrite { port: 0x40, value: (div & 0xff) as u8 },
                PortWrite { port: 0x40, value: ((div >> 8u32) & 0xff) as u8 },
            ]
        }),
{
    register_interrupt_handler(table, TIMER_VECTOR, handler);
    let div: u32 = PIT_FREQUENCY / freq;
    t.ticks_per_sec = freq;
    let mut w = Vec::new();
    w.push(PortWrite { port: 0x43, value: 0x34 });
    w.push(PortWrite { port: 0x40, value: (div & 0xff) as u8 });
    w.push(PortWrite { port: 0x40, value: ((div >> 8) & 0xff) as u8 });
    assert(w@ =~= seq![
        PortWrite { port: 0x43, value: 0x34 },
        PortWrite { port: 0x40, value: (div & 0xff) as u8 },
        PortWrite { port: 0x40, value: ((div >> 8u32) & 0xff) as u8 },
    ]);
    w
}

/// Sets the clock from the values read from the chip (`raw`, with status
/// register B `reg_b`), makes `scr` the clock's screen, and shows it there.
pub fn read_rtc_clock(t: &mut TimerState, set: &mut ScreenSet, raw: Clock, reg_b: u8, scr: u8) -> (ws: Vec<VgaWrite>)
    requires
        old(set).wf(),
        (scr as int) < MAX_SCREENS,
    ensures
        final(t).current_time == normalize_clock_spec(raw, reg_b),
        final(t).scr_ind == scr,
        final(t).tick == old(t).tick,
        final(t).ticks_per_sec == old(t).ticks_per_sec,
        final(set).wf(),
        final(set).used_view() == old(set).used_view(),
        ({
            let cleared = Screen { x: 0, y: 0, ..old(set).screens_view()[scr as int] };
            let (s2, text_ws) = puts_spec(cleared, clock_text(final(t).current_time));
            &&& ws@ == clear_writes(old(set).screens_view()[scr as int]) + text_ws
            &&& final(set).screens_view() == old(set).screens_view().update(scr as int, s2)
        }),
{
    t.current_time = normalize_clock(raw, reg_b);
    t.scr_ind = scr;
    let cl = t.current_time;
    write_clock(set, cl, scr)
}

} // verus!
