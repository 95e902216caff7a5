use vstd::prelude::*;
use crate::isr::HandlerTable;
use crate::isr::register_interrupt_handler;

verus! {

/// Byte of scan code `sc` without shift (0: no character), per the US layout.
pub open spec fn scan_code(sc: u8) -> u8 {
    match sc {
        1 => 27,
        2 => 49,
        3 => 50,
        4 => 51,
        5 => 52,
        6 => 53,
        7 => 54,
        8 => 55,
        9 => 56,
        10 => 57,
        11 => 48,
        12 => 45,
        13 => 61,
        14 => 8,
        15 => 9,
        16 => 113,
        17 => 119,
        18 => 101,
        19 => 114,
        20 => 116,
        21 => 121,
        22 => 117,
        23 => 105,
        24 => 111,
        25 => 112,
        26 => 91,
        27 => 93,
        28 => 10,
        30 => 97,
        31 => 115,
        32 => 100,
        33 => 102,
        34 => 103,
        35 => 104,
        36 => 106,
        37 => 107,
        38 => 108,
        39 => 59,
        40 => 39,
        41 => 96,
        43 => 92,
        44 => 122,
        45 => 120,
        46 => 99,
        47 => 118,
        48 => 98,
        49 => 110,
        50 => 109,
        51 => 44,
        52 => 46,
        53 => 47,
        55 => 42,
        57 => 32,
        71 => 55,
        72 => 56,
        73 => 57,
        74 => 45,
        75 => 52,
        76 => 53,
        77 => 54,
        78 => 43,
        79 => 49,
        80 => 50,
        81 => 51,
        82 => 48,
        83 => 46,
        _ => 0,
    }
}

/// Byte of scan code `sc` with shift held (0: no character).
pub open spec fn scan_code_shifted(sc: u8) -> u8 {
    match sc {
        1 => 27,
        2 => 33,
        3 => 64,
        4 => 35,
        5 => 36,
        6 => 37,
        7 => 94,
        8 => 38,
        9 => 42,
        10 => 40,
        11 => 41,
        12 => 95,
        13 => 43,
        14 => 8,
        15 => 9,
        16 => 81,
        17 => 87,
        18 => 69,
        19 => 82,
        20 => 84,
        21 => 89,
        22 => 85,
        23 => 73,
        24 => 79,
        25 => 80,
        26 => 123,
        27 => 125,
        28 => 10,
        30 => 65,
        31 => 83,
        32 => 68,
        33 => 70,
        34 => 71,
        35 => 72,
        36 => 74,
        37 => 75,
        38 => 76,
        39 => 58,
        40 => 34,
        41 => 126,
        43 => 124,
        44 => 90,
        45 => 88,
        46 => 67,
        47 => 86,
        48 => 66,
        49 => 78,
        50 => 77,
        51 => 60,
        52 => 62,
        55 => 42,
        57 => 32,
        71 => 55,
        72 => 56,
        73 => 57,
        74 => 45,
        75 => 52,
        76 => 53,
        77 => 54,
        78 => 43,
        79 => 49,
        80 => 50,
        81 => 51,
        82 => 48,
        83 => 46,
        _ => 0,
    }
}

/// Number of scan codes in the tables.
pub const SCAN_CODES: usize = 89;

fn scan_code_exec(sc: u8) -> (c: u8)
    ensures
        c == scan_code(sc),
{
    match sc {
        1 => 27,
        2 => 49,
        3 => 50,
        4 => 51,
        5 => 52,
        6 => 53,
        7 => 54,
        8 => 55,
        9 => 56,
        10 => 57,
        11 => 48,
        12 => 45,
        13 => 61,
        14 => 8,
        15 => 9,
        16 => 113,
        17 => 119,
        18 => 101,
        19 => 114,
        20 => 116,
        21 => 121,
        22 => 117,
        23 => 105,
        24 => 111,
        25 => 112,
        26 => 91,
        27 => 93,
        28 => 10,
        30 => 97,
        31 => 115,
        32 => 100,
        33 => 102,
        34 => 103,
        35 => 104,
        36 => 106,
        37 => 107,
        38 => 108,
        39 => 59,
        40 => 39,
        41 => 96,
        43 => 92,
        44 => 122,
        45 => 120,
        46 => 99,
        47 => 118,
        48 => 98,
        49 => 110,
        50 => 109,
        51 => 44,
        52 => 46,
        53 => 47,
        55 => 42,
        57 => 32,
        71 => 55,
        72 => 56,
        73 => 57,
        74 => 45,
        75 => 52,
        76 => 53,
        77 => 54,
        78 => 43,
        79 => 49,
        80 => 50,
        81 => 51,
        82 => 48,
        83 => 46,
        _ => 0,
    }
}

fn scan_code_shifted_exec(sc: u8) -> (c: u8)
    ensures
        c == scan_code_shifted(sc),
{
    match sc {
        1 => 27,
        2 => 33,
        3 => 64,
        4 => 35,
        5 => 36,
        6 => 37,
        7 => 94,
        8 => 38,
        9 => 42,
        10 => 40,
        11 => 41,
        12 => 95,
        13 => 43,
        14 => 8,
        15 => 9,
        16 => 81,
        17 => 87,
        18 => 69,
        19 => 82,
        20 => 84,
        21 => 89,
        22 => 85,
        23 => 73,
        24 => 79,
        25 => 80,
        26 => 123,
        27 => 125,
        28 => 10,
        30 => 65,
        31 => 83,
        32 => 68,
        33 => 70,
        34 => 71,
        35 => 72,
        36 => 74,
        37 => 75,
        38 => 76,
        39 => 58,
        40 => 34,
        41 => 126,
        43 => 124,
        44 => 90,
        45 => 88,
        46 => 67,
        47 => 86,
        48 => 66,
        49 => 78,
        50 => 77,
        51 => 60,
        52 => 62,
        55 => 42,
        57 => 32,
        71 => 55,
        72 => 56,
        73 => 57,
        74 => 45,
        75 => 52,
        76 => 53,
        77 => 54,
        78 => 43,
        79 => 49,
        80 => 50,
        81 => 51,
        82 => 48,
        83 => 46,
        _ => 0,
    }
}

/// Vector of the keyboard's IRQ.
pub const KEYBOARD_VECTOR: u8 = 33;

/// Makes `handler` the handler of the keyboard's interrupt.
pub fn init_keyboard<H: Copy>(table: &mut HandlerTable<H>, handler: H)
    requires
        old(table).wf(),
    ensures
        final(table).wf(),
        final(table).handlers_view() == old(table).handlers_view().update(KEYBOARD_VECTOR as int, handler),
{
    register_interrupt_handler(table, KEYBOARD_VECTOR, handler);
}

/// Whether a shift key is held.
#[derive(Clone, Copy, Debug, PartialEq, Eq, Structural)]
pub struct KeyboardState {
    pub shift_pressed: bool,
}

/// The shift state after scan code `sc`: pressing either shift key (0x2A,
/// 0x36) sets it, releasing either (0xAA, 0xB6) clears it.
pub open spec fn shift_after(shift: bool, sc: u8) -> bool {
    if sc == 0x2A || sc == 0x36 {
        true
    } else if sc == 0xAA || sc == 0xB6 {
        false
    } else {
        shift
    }
}

/// Notes a press or release of a shift key.
pub fn check_shift(state: &mut KeyboardState, sc: u8)
    ensures
        final(state).shift_pressed == shift_after(old(state).shift_pressed, sc),
{
    if sc == 0x2A || sc == 0x36 {
        state.shift_pressed = true;
    } else if sc == 0xAA || sc == 0xB6 {
        state.shift_pressed = false;
    }
}

/// The character of scan code `sc` with the shift state `shift`: none below 2
/// or from 88 on, or where the table has no character.
pub open spec fn char_of(shift: bool, sc: u8) -> Option<u8> {
    if sc >= 88 || sc < 2 {
        None
    } else {
        let c = if shift {
            scan_code_shifted(sc)
        } else {
            scan_code(sc)
        };
        if c == 0 {
            None
        } else {
            Some(c)
        }
    }
}

/// The character of a scan code, or none when it is not printable.
pub fn get_char(state: &KeyboardState, scancode: u8) -> (c: Option<u8>)
    ensures
        c == char_of(state.shift_pressed, scancode),
{
    if scancode >= 88 || scancode < 2 {
        return None;
    }
    if (!state.shift_pressed && scan_code_exec(scancode) == 0) || (state.shift_pressed
        && scan_code_shifted_exec(scancode) == 0) {
        return None;
    }
    if state.shift_pressed {
        Some(scan_code_shifted_exec(scancode))
    } else {
        Some(scan_code_exec(scancode))
    }
}

/// The US-layout table of characters of scan codes without shift, as text
/// (NUL where a key has no character).
pub open spec fn us_layout() -> Seq<char> {
    "\x00\x1B1234567890-=\x08\tqwertyuiop[]\n\x00asdfghjkl;'`\x00\\zxcvbnm,./\x00*\x00 \x00\x00\x00\x00\x00\x00\x00\x00\x00\x00\x00\x00\x00789-456+1230.\x00\x00\x00\x00\x00"@
}

/// The US-layout table of characters of scan codes with shift held, as text.
pub open spec fn us_layout_shifted() -> Seq<char> {
    "\x00\x1B!@#$%^&*()_+\x08\tQWERTYUIOP{}\n\x00ASDFGHJKL:\"~\x00|ZXCVBNM<>\x00\x00*\x00 \x00\x00\x00\x00\x00\x00\x00\x00\x00\x00\x00\x00\x00789-456+1230.\x00\x00\x00\x00\x00"@
}

/// The scan-code tables are those of the US layout: each of the 89 scan
/// codes gives the character the layout's table has for it, with and
/// without shift; so a key press gives that character (none below code 2,
/// from 88 on, or where the table has NUL).
pub proof fn lemma_scan_codes_us_layout(sc: u8)
    requires
        sc < 89,
    ensures
        scan_code(sc) as int == us_layout()[sc as int] as int,
        scan_code_shifted(sc) as int == us_layout_shifted()[sc as int] as int,
        char_of(false, sc) == if 2 <= sc < 88 && us_layout()[sc as int] as int != 0 {
            Some(us_layout()[sc as int] as u8)
        } else {
            None
        },
        char_of(true, sc) == if 2 <= sc < 88 && us_layout_shifted()[sc as int] as int != 0 {
            Some(us_layout_shifted()[sc as int] as u8)
        } else {
            None
        },
{
    reveal_strlit("\x00\x1B1234567890-=\x08\tqwertyuiop[]\n\x00asdfghjkl;'`\x00\\zxcvbnm,./\x00*\x00 \x00\x00\x00\x00\x00\x00\x00\x00\x00\x00\x00\x00\x00789-456+1230.\x00\x00\x00\x00\x00");
    reveal_strlit("\x00\x1B!@#$%^&*()_+\x08\tQWERTYUIOP{}\n\x00ASDFGHJKL:\"~\x00|ZXCVBNM<>\x00\x00*\x00 \x00\x00\x00\x00\x00\x00\x00\x00\x00\x00\x00\x00\x00789-456+1230.\x00\x00\x00\x00\x00");
    if sc == 0 {} else if sc == 1 {} else if sc == 2 {} else if sc == 3 {} else if sc == 4 {} else if sc == 5 {} else if sc == 6 {} else if sc == 7 {} else if sc == 8 {} else if sc == 9 {} else if sc == 10 {} else if sc == 11 {} else if sc == 12 {} else if sc == 13 {} else if sc == 14 {} else if sc == 15 {} else if sc == 16 {} else if sc == 17 {} else if sc == 18 {} else if sc == 19 {} else if sc == 20 {} else if sc == 21 {} else if sc == 22 {} else if sc == 23 {} else if sc == 24 {} else if sc == 25 {} else if sc == 26 {} else if sc == 27 {} else if sc == 28 {} else if sc == 29 {} else if sc == 30 {} else if sc == 31 {} else if sc == 32 {} else if sc == 33 {} else if sc == 34 {} else if sc == 35 {} else if sc == 36 {} else if sc == 37 {} else if sc == 38 {} else if sc == 39 {} else if sc == 40 {} else if sc == 41 {} else if sc == 42 {} else if sc == 43 {} else if sc == 44 {} else if sc == 45 {} else if sc == 46 {} else if sc == 47 {} else if sc == 48 {} else if sc == 49 {} else if sc == 50 {} else if sc == 51 {} else if sc == 52 {} else if sc == 53 {} else if sc == 54 {} else if sc == 55 {} else if sc == 56 {} else if sc == 57 {} else if sc == 58 {} else if sc == 59 {} else if sc == 60 {} else if sc == 61 {} else if sc == 62 {} else if sc == 63 {} else if sc == 64 {} else if sc == 65 {} else if sc == 66 {} else if sc == 67 {} else if sc == 68 {} else if sc == 69 {} else if sc == 70 {} else if sc == 71 {} else if sc == 72 {} else if sc == 73 {} else if sc == 74 {} else if sc == 75 {} else if sc == 76 {} else if sc == 77 {} else if sc == 78 {} else if sc == 79 {} else if sc == 80 {} else if sc == 81 {} else if sc == 82 {} else if sc == 83 {} else if sc == 84 {} else if sc == 85 {} else if sc == 86 {} else if sc == 87 {} else if sc == 88 {}
}

} // verus!
