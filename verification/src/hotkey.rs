//! The rules by which keys call and hide the popup.
//!
//! Two presses of Ctrl within half a second, with no other key between them, toggle the popup. So
//! does a hotkey of one's own, which is then kept from the system and from other programs.
//!
//! The keyboard hook that calls these rules has to be quick: they only look at key codes and times.

use vstd::prelude::*;

use crate::text;
use crate::text::{char_code, split_all, string_of, str_eq, to_ascii_lowercase, trim};

verus! {

/// Bits of modifier keys.
pub const MOD_CTRL: u32 = 1;

pub const MOD_ALT: u32 = 2;

pub const MOD_SHIFT: u32 = 4;

pub const MOD_WIN: u32 = 8;

pub const VK_CONTROL: u32 = 0x11;

pub const VK_LCONTROL: u32 = 0xA2;

pub const VK_RCONTROL: u32 = 0xA3;

/// A second press of the own hotkey within this time is a repetition, in milliseconds.
pub const CUSTOM_REPEAT_MS: u64 = 300;

/// A second press of Ctrl within this time is a repetition.
pub const CTRL_REPEAT_MS: u64 = 120;

/// Two presses of Ctrl within this time are a double press.
pub const DOUBLE_CTRL_MS: u64 = 500;

/// For how long after it was called a popup is not hidden at once when it loses the focus.
pub const FOCUS_GUARD_MS: u64 = 250;

/// What the keyboard hook knows.
#[derive(Clone, Copy, Debug, PartialEq, Eq, Structural)]
pub struct HotkeyState {
    pub double_ctrl_enabled: bool,
    /// When Ctrl was pressed last, 0 where that does not count any more.
    pub last_ctrl_ms: u64,
    /// Another key was pressed since.
    pub other_key: bool,
    pub custom_enabled: bool,
    /// When the own hotkey was pressed last.
    pub custom_last_ms: u64,
    pub custom_mods: u32,
    pub custom_vk: u32,
}

/// What becomes of a key.
#[derive(Clone, Copy, Debug, PartialEq, Eq, Structural)]
pub struct KeyVerdict {
    /// The popup is called or hidden.
    pub toggles: bool,
    /// The key is kept from the system.
    pub swallowed: bool,
}

/// What one part of a hotkey's text means.
#[derive(Clone, Copy, Debug, PartialEq, Eq, Structural)]
pub enum HotkeyPart {
    Modifier(u32),
    Key(u32),
    /// Nothing that is known.
    Unknown,
    /// The number of a function key that no number type holds.
    TooLarge,
}

/// The number that decimal digits stand for.
pub open spec fn digits_value(s: Seq<char>) -> nat
    decreases s.len(),
{
    if s.len() == 0 {
        0
    } else {
        digits_value(s.drop_last()) * 10 + (s.last() as int - 0x30) as nat
    }
}

/// Nothing but decimal digits.
pub open spec fn all_digits(s: Seq<char>) -> bool {
    forall|i: int| #![trigger s[i]] 0 <= i < s.len() ==> '0' <= s[i] <= '9'
}

/// What a part of a hotkey's text means, in lower case and without white space at its ends.
pub open spec fn part_of(p: Seq<char>) -> HotkeyPart {
    if p == "ctrl"@ || p == "control"@ {
        HotkeyPart::Modifier(MOD_CTRL)
    } else if p == "alt"@ {
        HotkeyPart::Modifier(MOD_ALT)
    } else if p == "shift"@ {
        HotkeyPart::Modifier(MOD_SHIFT)
    } else if p == "win"@ || p == "meta"@ {
        HotkeyPart::Modifier(MOD_WIN)
    } else if p == "space"@ {
        HotkeyPart::Key(0x20)
    } else if p.len() == 1 && 'a' <= p[0] <= 'z' {
        HotkeyPart::Key((p[0] as int - 32) as u32)
    } else if p.len() == 1 && '0' <= p[0] <= '9' {
        HotkeyPart::Key((p[0] as int) as u32)
    } else if p.len() >= 2 && p[0] == 'f' && all_digits(p.drop_first()) {
        let n = digits_value(p.drop_first());
        if n > u32::MAX {
            HotkeyPart::TooLarge
        } else if 1 <= n <= 24 {
            HotkeyPart::Key((0x70 + n - 1) as u32)
        } else {
            HotkeyPart::Unknown
        }
    } else {
        HotkeyPart::Unknown
    }
}

/// Modifiers and key after some parts; `None` where a part is too large a number. Of several keys
/// the last one counts.
pub open spec fn parts_of(parts: Seq<Seq<char>>) -> Option<(u32, Option<u32>)>
    decreases parts.len(),
{
    if parts.len() == 0 {
        Some((0, None))
    } else {
        match parts_of(parts.drop_last()) {
            Some((mods, key)) => match part_of(text::ascii_lower(text::trimmed(parts.last()))) {
                HotkeyPart::Modifier(m) => Some((mods | m, key)),
                HotkeyPart::Key(k) => Some((mods, Some(k))),
                HotkeyPart::Unknown => Some((mods, key)),
                HotkeyPart::TooLarge => None,
            },
            None => None,
        }
    }
}

/// The modifiers and the key of a hotkey's text, which needs at least one of each.
pub open spec fn hotkey_of(s: Seq<char>) -> Option<(u32, u32)> {
    match parts_of(text::split(s, '+')) {
        Some((mods, Some(key))) => if mods != 0 {
            Some((mods, key))
        } else {
            None
        },
        _ => None,
    }
}

proof fn lemma_digits_grow(s: Seq<char>, i: int)
    requires
        0 <= i <= s.len(),
    ensures
        digits_value(s.take(i)) <= digits_value(s),
    decreases s.len() - i,
{
    if i < s.len() {
        lemma_digits_grow(s, i + 1);
        assert(s.take(i + 1).drop_last() =~= s.take(i));
    } else {
        assert(s.take(i) =~= s);
    }
}

/// The number of decimal digits, if a `u32` holds it.
fn parse_digits(s: &[char]) -> (r: Option<u32>)
    requires
        all_digits(s@),
    ensures
        match r {
            Some(n) => n == digits_value(s@),
            None => digits_value(s@) > u32::MAX,
        },
{
    let mut n: u64 = 0;
    assert(s@.take(0) =~= seq![]);
    for i in 0..s.len()
        invariant
            all_digits(s@),
            n == digits_value(s@.take(i as int)),
            n <= u32::MAX,
    {
        let d = char_code(s[i]);
        assert(s@.take(i + 1).drop_last() =~= s@.take(i as int));
        assert('0' <= s@[i as int] <= '9');
        n = n * 10 + (d - 0x30) as u64;
        if n > u32::MAX as u64 {
            proof {
                lemma_digits_grow(s@, i + 1);
            }
            return None;
        }
    }
    assert(s@.take(s@.len() as int) =~= s@);
    Some(n as u32)
}

fn is_all_digits(s: &[char]) -> (r: bool)
    ensures
        r == all_digits(s@),
{
    for i in 0..s.len()
        invariant
            forall|j: int| #![trigger s@[j]] 0 <= j < i ==> '0' <= s@[j] <= '9',
    {
        if !(s[i] >= '0' && s[i] <= '9') {
            assert(!('0' <= s@[i as int] <= '9'));
            return false;
        }
    }
    true
}

fn parse_part(p: &str) -> (r: HotkeyPart)
    ensures
        r == part_of(p@),
{
    if str_eq(p, "ctrl") || str_eq(p, "control") {
        return HotkeyPart::Modifier(MOD_CTRL);
    }
    if str_eq(p, "alt") {
        return HotkeyPart::Modifier(MOD_ALT);
    }
    if str_eq(p, "shift") {
        return HotkeyPart::Modifier(MOD_SHIFT);
    }
    if str_eq(p, "win") || str_eq(p, "meta") {
        return HotkeyPart::Modifier(MOD_WIN);
    }
    if str_eq(p, "space") {
        return HotkeyPart::Key(0x20);
    }
    let chars = text::chars_of(p);
    let n: usize = chars.len();
    if n == 1 {
        let c = chars[0];
        if c >= 'a' && c <= 'z' {
            return HotkeyPart::Key(char_code(c) - 32);
        }
        if c >= '0' && c <= '9' {
            return HotkeyPart::Key(char_code(c));
        }
        return HotkeyPart::Unknown;
    }
    if n >= 2 && chars[0] == 'f' {
        let rest = vstd::slice::slice_subrange(chars.as_slice(), 1, n);
        assert(rest@ =~= p@.drop_first());
        if is_all_digits(rest) {
            return match parse_digits(rest) {
                Some(k) => if k >= 1 && k <= 24 {
                    HotkeyPart::Key(0x70 + (k - 1))
                } else {
                    HotkeyPart::Unknown
                },
                None => HotkeyPart::TooLarge,
            };
        }
    }
    HotkeyPart::Unknown
}

/// Reads a hotkey like `ctrl+alt+l`: the bits of its modifiers and its virtual key code.
pub fn parse_hotkey(s: &str) -> (r: Option<(u32, u32)>)
    ensures
        r == hotkey_of(s@),
{
    let parts = split_all(s, '+');
    let ghost all = text::split(s@, '+');
    let mut mods: u32 = 0;
    let mut key: Option<u32> = None;
    assert(all.take(0) =~= seq![]);
    for i in 0..parts.len()
        invariant
            all == text::split(s@, '+'),
            text::char_lists(parts@) == all,
            parts_of(all.take(i as int)) == Some((mods, key)),
    {
        assert(all.take(i + 1).drop_last() =~= all.take(i as int));
        assert(all[i as int] == parts@[i as int]@);
        let part = string_of(trim(parts[i].as_slice()));
        match parse_part(to_ascii_lowercase(part.as_str()).as_str()) {
            HotkeyPart::Modifier(m) => {
                mods = mods | m;
            },
            HotkeyPart::Key(k) => {
                key = Some(k);
            },
            HotkeyPart::Unknown => {},
            HotkeyPart::TooLarge => {
                proof {
                    lemma_parts_fail(all, i + 1);
                }
                return None;
            },
        }
    }
    assert(all.take(all.len() as int) =~= all);
    match key {
        Some(k) => if mods != 0 {
            Some((mods, k))
        } else {
            None
        },
        None => None,
    }
}

proof fn lemma_parts_fail(parts: Seq<Seq<char>>, i: int)
    requires
        0 <= i <= parts.len(),
        parts_of(parts.take(i)) is None,
    ensures
        parts_of(parts) is None,
    decreases parts.len() - i,
{
    if i < parts.len() {
        assert(parts.take(i + 1).drop_last() =~= parts.take(i));
        lemma_parts_fail(parts, i + 1);
    } else {
        assert(parts.take(i) =~= parts);
    }
}

proof fn lemma_parts_bounds(parts: Seq<Seq<char>>)
    ensures
        parts_of(parts) matches Some((mods, key)) ==> mods < 16 && (key matches Some(k) ==> {
            ||| k == 0x20
            ||| 0x30 <= k <= 0x39
            ||| 0x41 <= k <= 0x5A
            ||| 0x70 <= k <= 0x87
        }),
    decreases parts.len(),
{
    if parts.len() > 0 {
        lemma_parts_bounds(parts.drop_last());
        if parts_of(parts.drop_last()) is Some {
            let m = (parts_of(parts.drop_last())->0).0;
            assert(m < 16 ==> (m | 1u32) < 16 && (m | 2u32) < 16 && (m | 4u32) < 16 && (m | 8u32)
                < 16) by (bit_vector);
        }
    }
}

/// A hotkey that was read has at least one modifier and no unknown one, and its key is the space
/// bar, a digit, a letter or one of the function keys F1 to F24.
pub proof fn law_hotkey_is_valid(s: Seq<char>)
    ensures
        hotkey_of(s) matches Some((mods, key)) ==> 0 < mods < 16 && {
            ||| key == 0x20
            ||| 0x30 <= key <= 0x39
            ||| 0x41 <= key <= 0x5A
            ||| 0x70 <= key <= 0x87
        },
{
    lemma_parts_bounds(text::split(s, '+'));
}

/// The state of a hook that has seen no key.
pub fn new_state() -> (r: HotkeyState)
    ensures
        r == (HotkeyState {
            double_ctrl_enabled: true,
            last_ctrl_ms: 0,
            other_key: false,
            custom_enabled: false,
            custom_last_ms: 0,
            custom_mods: 0,
            custom_vk: 0,
        }),
{
    HotkeyState {
        double_ctrl_enabled: true,
        last_ctrl_ms: 0,
        other_key: false,
        custom_enabled: false,
        custom_last_ms: 0,
        custom_mods: 0,
        custom_vk: 0,
    }
}

/// Switches the double press of Ctrl on or off.
pub fn set_double_ctrl_enabled(state: &mut HotkeyState, on: bool)
    ensures
        *final(state) == (HotkeyState { double_ctrl_enabled: on, ..*old(state) }),
{
    state.double_ctrl_enabled = on;
}

/// The state with an own hotkey set by its text.
pub open spec fn with_custom(state: HotkeyState, enabled: bool, s: Seq<char>) -> HotkeyState {
    match hotkey_of(s) {
        Some((mods, vk)) => HotkeyState {
            custom_enabled: enabled,
            custom_mods: mods,
            custom_vk: vk,
            ..state
        },
        None => HotkeyState { custom_enabled: false, ..state },
    }
}

/// Sets the own hotkey, such as `alt+space`. A text that is none switches it off.
pub fn set_custom_hotkey(state: &mut HotkeyState, enabled: bool, spec_text: &str)
    ensures
        *final(state) == with_custom(*old(state), enabled, spec_text@),
{
    match parse_hotkey(spec_text) {
        Some((mods, vk)) => {
            state.custom_mods = mods;
            state.custom_vk = vk;
            state.custom_enabled = enabled;
        },
        None => {
            state.custom_enabled = false;
        },
    }
}

/// The modifier bits of keys.
pub open spec fn bits_of(ctrl: bool, alt: bool, shift: bool, win: bool) -> int {
    (if ctrl {
        MOD_CTRL as int
    } else {
        0
    }) + (if alt {
        MOD_ALT as int
    } else {
        0
    }) + (if shift {
        MOD_SHIFT as int
    } else {
        0
    }) + (if win {
        MOD_WIN as int
    } else {
        0
    })
}

/// The modifier bits of the keys that are held down.
pub fn modifier_bits(ctrl: bool, alt: bool, shift: bool, left_win: bool, right_win: bool) -> (r: u32)
    ensures
        r == bits_of(ctrl, alt, shift, left_win || right_win),
{
    let mut m: u32 = 0;
    if ctrl {
        m = m + MOD_CTRL;
    }
    if alt {
        m = m + MOD_ALT;
    }
    if shift {
        m = m + MOD_SHIFT;
    }
    if left_win || right_win {
        m = m + MOD_WIN;
    }
    m
}

/// How long ago a time was; 0 where it lies ahead.
pub open spec fn since(now: u64, then: u64) -> int {
    if now >= then {
        now - then
    } else {
        0
    }
}

/// Whether a key is one of the Ctrl keys.
pub open spec fn is_ctrl_key(vk: u32) -> bool {
    vk == VK_CONTROL || vk == VK_LCONTROL || vk == VK_RCONTROL
}

/// Whether a key, with the modifiers held down, is the own hotkey.
pub open spec fn is_custom(state: HotkeyState, vk: u32, mods: u32) -> bool {
    state.custom_enabled && state.custom_vk != 0 && vk == state.custom_vk && mods & state.custom_mods
        == state.custom_mods
}

/// A press of Ctrl that is no repetition and, with the last one, makes a double press.
pub open spec fn is_double(state: HotkeyState, now: u64) -> bool {
    state.double_ctrl_enabled && !state.other_key && state.last_ctrl_ms != 0 && since(
        now,
        state.last_ctrl_ms,
    ) < DOUBLE_CTRL_MS
}

/// The state of the hook after a key, and what becomes of the key. A double press does not count
/// for another one.
pub open spec fn key_step(
    state: HotkeyState,
    vk: u32,
    is_down: bool,
    mods: u32,
    now: u64,
) -> (HotkeyState, KeyVerdict) {
    if is_custom(state, vk, mods) {
        let repeated = since(now, state.custom_last_ms) < CUSTOM_REPEAT_MS;
        (
            HotkeyState {
                custom_last_ms: now,
                last_ctrl_ms: if repeated {
                    state.last_ctrl_ms
                } else {
                    0
                },
                ..state
            },
            KeyVerdict { toggles: !repeated, swallowed: true },
        )
    } else if !is_down {
        (state, KeyVerdict { toggles: false, swallowed: false })
    } else if !is_ctrl_key(vk) {
        (
            HotkeyState { other_key: true, ..state },
            KeyVerdict { toggles: false, swallowed: false },
        )
    } else if since(now, state.last_ctrl_ms) < CTRL_REPEAT_MS {
        (state, KeyVerdict { toggles: false, swallowed: false })
    } else if !state.double_ctrl_enabled {
        (
            HotkeyState { last_ctrl_ms: now, ..state },
            KeyVerdict { toggles: false, swallowed: false },
        )
    } else if is_double(state, now) {
        (
            HotkeyState { last_ctrl_ms: 0, other_key: true, ..state },
            KeyVerdict { toggles: true, swallowed: false },
        )
    } else {
        (
            HotkeyState { last_ctrl_ms: now, other_key: false, ..state },
            KeyVerdict { toggles: false, swallowed: false },
        )
    }
}

fn elapsed(now: u64, then: u64) -> (r: u64)
    ensures
        r == since(now, then),
{
    if now >= then {
        now - then
    } else {
        0
    }
}

/// Decides on a key: `mods` are the modifiers that are held down, `now` is the time in
/// milliseconds.
pub fn on_key(state: &mut HotkeyState, vk: u32, is_down: bool, mods: u32, now: u64) -> (r: KeyVerdict)
    ensures
        (*final(state), r) == key_step(*old(state), vk, is_down, mods, now),
{
    let pass = KeyVerdict { toggles: false, swallowed: false };
    if state.custom_enabled && state.custom_vk != 0 && vk == state.custom_vk && mods
        & state.custom_mods == state.custom_mods {
        let repeated = elapsed(now, state.custom_last_ms) < CUSTOM_REPEAT_MS;
        state.custom_last_ms = now;
        if !repeated {
            state.last_ctrl_ms = 0;
        }
        return KeyVerdict { toggles: !repeated, swallowed: true };
    }
    if !is_down {
        return pass;
    }
    if !(vk == VK_CONTROL || vk == VK_LCONTROL || vk == VK_RCONTROL) {
        state.other_key = true;
        return pass;
    }
    let last = state.last_ctrl_ms;
    if elapsed(now, last) < CTRL_REPEAT_MS {
        return pass;
    }
    if !state.double_ctrl_enabled {
        state.last_ctrl_ms = now;
        return pass;
    }
    if !state.other_key && last != 0 && elapsed(now, last) < DOUBLE_CTRL_MS {
        state.last_ctrl_ms = 0;
        state.other_key = true;
        return KeyVerdict { toggles: true, swallowed: false };
    }
    state.last_ctrl_ms = now;
    state.other_key = false;
    pass
}

/// Two presses of Ctrl within half a second, and not so close that the second is a repetition,
/// toggle the popup, where the first one is not itself a repetition or the end of a double press.
pub proof fn law_double_ctrl_toggles(
    state: HotkeyState,
    vk1: u32,
    vk2: u32,
    mods1: u32,
    mods2: u32,
    t1: u64,
    t2: u64,
)
    requires
        state.double_ctrl_enabled,
        is_ctrl_key(vk1),
        is_ctrl_key(vk2),
        !is_custom(state, vk1, mods1),
        !is_custom(state, vk2, mods2),
        t1 > 0,
        since(t1, state.last_ctrl_ms) >= CTRL_REPEAT_MS,
        !is_double(state, t1),
        CTRL_REPEAT_MS <= t2 - t1 < DOUBLE_CTRL_MS,
    ensures
        ({
            let first = key_step(state, vk1, true, mods1, t1);
            let second = key_step(first.0, vk2, true, mods2, t2);
            !first.1.toggles && second.1.toggles && !second.1.swallowed
        }),
{
}

/// Another key between the two presses keeps them from toggling the popup.
pub proof fn law_other_key_spoils(
    state: HotkeyState,
    vk1: u32,
    other: u32,
    vk2: u32,
    mods: u32,
    t1: u64,
    t: u64,
    t2: u64,
)
    requires
        !state.custom_enabled,
        is_ctrl_key(vk1),
        !is_ctrl_key(other),
        is_ctrl_key(vk2),
    ensures
        ({
            let first = key_step(state, vk1, true, mods, t1);
            let between = key_step(first.0, other, true, mods, t);
            let second = key_step(between.0, vk2, true, mods, t2);
            !between.1.toggles && !second.1.toggles
        }),
{
}

/// A third press right after a double press does not toggle again.
pub proof fn law_third_press_is_no_double(state: HotkeyState, vk: u32, mods: u32, t2: u64, t3: u64)
    requires
        !state.custom_enabled,
        is_ctrl_key(vk),
        key_step(state, vk, true, mods, t2).1.toggles,
    ensures
        !key_step(key_step(state, vk, true, mods, t2).0, vk, true, mods, t3).1.toggles,
{
}

/// The own hotkey is always kept from the system.
pub proof fn law_custom_is_swallowed(state: HotkeyState, vk: u32, is_down: bool, mods: u32, now: u64)
    ensures
        key_step(state, vk, is_down, mods, now).1.swallowed <==> is_custom(state, vk, mods),
{
}

/// What is known of the popup.
#[derive(Clone, Copy, Debug, PartialEq, Eq, Structural)]
pub struct PopupState {
    /// Grows with every call and every hiding, so that what was planned before is recognised as out
    /// of date.
    pub generation: u64,
    pub guard_until_ms: u64,
    pub visible: bool,
}

/// What a call of the popup does.
#[derive(Clone, Copy, Debug, PartialEq, Eq, Structural)]
pub enum PopupStep {
    Show,
    Hide,
    Focus,
}

/// One generation later.
pub open spec fn next_generation(generation: u64) -> u64 {
    if generation == u64::MAX {
        0
    } else {
        (generation + 1) as u64
    }
}

fn later(generation: u64) -> (r: u64)
    ensures
        r == next_generation(generation),
{
    if generation == u64::MAX {
        0
    } else {
        generation + 1
    }
}

/// The popup before it is first called.
pub fn hidden_popup() -> (r: PopupState)
    ensures
        r == (PopupState { generation: 0, guard_until_ms: 0, visible: false }),
{
    PopupState { generation: 0, guard_until_ms: 0, visible: false }
}

/// The generation of the popup, by which a loss of focus that was reported before it was shown or
/// hidden is recognised.
pub fn popup_generation(popup: &PopupState) -> (r: u64)
    ensures
        r == popup.generation,
{
    popup.generation
}

/// Whether the popup is called.
pub fn popup_visible(popup: &PopupState) -> (r: bool)
    ensures
        r == popup.visible,
{
    popup.visible
}

/// Whether the popup was called so lately that losing the focus may be passing.
pub fn popup_focus_guard_active(popup: &PopupState, now: u64) -> (r: bool)
    ensures
        r == (now < popup.guard_until_ms),
{
    now < popup.guard_until_ms
}

/// Until when a popup that is called at a time is guarded.
pub open spec fn guarded_until(now: u64) -> u64 {
    if now + FOCUS_GUARD_MS <= u64::MAX {
        (now + FOCUS_GUARD_MS) as u64
    } else {
        u64::MAX
    }
}

/// Guards the popup against a passing loss of focus.
pub fn arm_popup_focus_guard(popup: &mut PopupState, now: u64)
    ensures
        *final(popup) == (PopupState { guard_until_ms: guarded_until(now), ..*old(popup) }),
{
    popup.guard_until_ms = if now <= u64::MAX - FOCUS_GUARD_MS {
        now + FOCUS_GUARD_MS
    } else {
        u64::MAX
    };
}

/// The popup is about to be shown or hidden: what was planned before is out of date. Yields the new
/// generation.
pub fn advance_generation(popup: &mut PopupState) -> (r: u64)
    ensures
        *final(popup) == (PopupState {
            generation: next_generation(old(popup).generation),
            ..*old(popup)
        }),
        r == final(popup).generation,
{
    popup.generation = later(popup.generation);
    popup.generation
}

/// The popup is called, or is not any more.
pub fn set_visible(popup: &mut PopupState, visible: bool)
    ensures
        *final(popup) == (PopupState { visible, ..*old(popup) }),
{
    popup.visible = visible;
}

/// The popup has been shown and has the focus: it is guarded, and a loss of focus that showing it
/// caused is out of date.
pub fn end_show(popup: &mut PopupState, now: u64)
    ensures
        *final(popup) == (PopupState {
            generation: next_generation(old(popup).generation),
            guard_until_ms: guarded_until(now),
            ..*old(popup)
        }),
{
    arm_popup_focus_guard(popup, now);
    popup.generation = later(popup.generation);
}

/// Whether the window is really hidden at the end of the popup's exit: not if it was called again.
pub fn finishes_hide(popup: &PopupState, generation: u64) -> (r: bool)
    ensures
        r == (popup.generation == generation && !popup.visible),
{
    popup.generation == generation && !popup.visible
}

/// Whether a popup that was without focus in a generation is hidden when it is looked at again.
pub open spec fn hides(popup: PopupState, generation: u64, focused: bool) -> bool {
    popup.generation == generation && popup.visible && !focused
}

/// Whether a popup that was without focus is hidden when it is looked at again: not if it was shown
/// or hidden since, or has the focus.
pub fn hides_unfocused(popup: &PopupState, generation: u64, focused: bool) -> (r: bool)
    ensures
        r == hides(*popup, generation, focused),
{
    popup.generation == generation && popup.visible && !focused
}

/// How long after a loss of focus the popup is looked at again.
pub open spec fn blur_wait(popup: PopupState, now: u64) -> int {
    if now < popup.guard_until_ms {
        950
    } else {
        120
    }
}

/// How long after a loss of focus the popup is looked at again, in milliseconds: soon, or late where
/// it was called only just now.
pub fn blur_delay_ms(popup: &PopupState, now: u64) -> (r: u64)
    ensures
        r == blur_wait(*popup, now),
{
    if popup_focus_guard_active(popup, now) {
        950
    } else {
        120
    }
}

/// What toggling the popup does.
pub fn toggle_step(popup: &PopupState) -> (r: PopupStep)
    ensures
        r == if popup.visible {
            PopupStep::Hide
        } else {
            PopupStep::Show
        },
{
    if popup.visible {
        PopupStep::Hide
    } else {
        PopupStep::Show
    }
}

/// What calling the popup from elsewhere does: one that is there only gets the focus.
pub fn show_step(popup: &PopupState) -> (r: PopupStep)
    ensures
        r == if popup.visible {
            PopupStep::Focus
        } else {
            PopupStep::Show
        },
{
    if popup.visible {
        PopupStep::Focus
    } else {
        PopupStep::Show
    }
}

/// A loss of focus that was reported before the popup was called does not hide it: neither while it
/// is being shown nor after, whatever else has changed.
pub proof fn law_stale_blur_is_ignored(before: PopupState, now: PopupState, focused: bool)
    requires
        now.generation == next_generation(before.generation) || now.generation == next_generation(
            next_generation(before.generation),
        ),
    ensures
        !hides(now, before.generation, focused),
{
}

/// Half of a number, without its fraction.
pub open spec fn half(x: int) -> int {
    if x >= 0 {
        x / 2
    } else {
        -((-x) / 2)
    }
}

/// Where a window of the given size begins to stand in the middle between two edges.
pub fn centered(low: i32, high: i32, size: i32) -> (r: i32)
    requires
        i32::MIN <= high - low <= i32::MAX,
        i32::MIN <= high - low - size <= i32::MAX,
        i32::MIN <= low + half(high - low - size) <= i32::MAX,
    ensures
        r == low + half(high - low - size),
{
    let free: i32 = high - low - size;
    let offset: i32 = if free >= 0 {
        free / 2
    } else {
        (-((-(free as i64)) / 2)) as i32
    };
    low + offset
}

/// Whether a window is one of those that the window library puts up for its messages, which would
/// flash up and take the focus.
pub fn is_flash_window(window_pid: u32, own_pid: u32, visible: bool, class: &str) -> (r: bool)
    ensures
        r == (window_pid == own_pid && visible && class@ == "Tao Thread Event Target"@),
{
    window_pid == own_pid && visible && str_eq(class, "Tao Thread Event Target")
}

} // verus!
