use searchcore::hotkey::{
    advance_generation, arm_popup_focus_guard, blur_delay_ms, centered, end_show, finishes_hide,
    hidden_popup, hides_unfocused, is_flash_window, modifier_bits, new_state, on_key, parse_hotkey,
    popup_focus_guard_active, popup_generation, popup_visible, set_custom_hotkey,
    set_double_ctrl_enabled, set_visible, show_step, toggle_step, HotkeyState, PopupStep,
};

const CTRL: u32 = 0xA2;

fn press(s: &mut HotkeyState, vk: u32, now: u64) -> bool {
    on_key(s, vk, true, 0, now).toggles
}

#[test]
fn hotkeys_are_read() {
    assert_eq!(parse_hotkey("alt+space"), Some((2, 0x20)));
    assert_eq!(parse_hotkey("ctrl+alt+l"), Some((3, 0x4C)));
    assert_eq!(parse_hotkey(" Control + SHIFT+ 7 "), Some((5, 0x37)));
    assert_eq!(parse_hotkey("win+f12"), Some((8, 0x7B)));
    assert_eq!(parse_hotkey("meta+F24"), Some((8, 0x87)));
    assert_eq!(parse_hotkey("alt+a+b"), Some((2, 0x42)));
    assert_eq!(parse_hotkey("alt++x"), Some((2, 0x58)));
}

#[test]
fn texts_that_are_no_hotkeys() {
    for s in ["", "a", "f5", "alt", "alt+f25", "alt+f0", "alt+é", "alt+foo", "alt+fx", "space"] {
        assert_eq!(parse_hotkey(s), None, "{s}");
    }
    assert_eq!(parse_hotkey("alt+a+f4294967296"), None);
    assert_eq!(parse_hotkey("alt+a+f4294967295"), Some((2, 0x41)));
}

#[test]
fn a_double_press_of_ctrl_toggles() {
    let mut s = new_state();
    assert!(!press(&mut s, CTRL, 10_000));
    assert!(press(&mut s, CTRL, 10_120));
    assert!(!press(&mut s, CTRL, 10_300));
    assert!(press(&mut s, CTRL, 10_799));
    assert!(!press(&mut s, CTRL, 11_000));
    assert!(!press(&mut s, CTRL, 11_500));
}

#[test]
fn repetitions_and_other_keys_do_not_count() {
    let mut s = new_state();
    assert!(!press(&mut s, CTRL, 10_000));
    assert!(!press(&mut s, CTRL, 10_119));
    assert_eq!(s.last_ctrl_ms, 10_000);
    assert!(!press(&mut s, 0x41, 10_200));
    assert!(!press(&mut s, CTRL, 10_300));
    assert!(press(&mut s, 0x11, 10_500));
    set_double_ctrl_enabled(&mut s, false);
    assert!(!press(&mut s, CTRL, 20_000));
    assert!(!press(&mut s, CTRL, 20_200));
    let up = on_key(&mut s, CTRL, false, 0, 20_300);
    assert!(!up.toggles && !up.swallowed);
}

#[test]
fn the_own_hotkey_is_swallowed() {
    let mut s = new_state();
    set_custom_hotkey(&mut s, true, "ctrl+alt+l");
    assert_eq!((s.custom_enabled, s.custom_mods, s.custom_vk), (true, 3, 0x4C));
    let v = on_key(&mut s, 0x4C, true, 3, 1_000);
    assert!(v.toggles && v.swallowed);
    let v = on_key(&mut s, 0x4C, true, 7, 1_299);
    assert!(!v.toggles && v.swallowed);
    let v = on_key(&mut s, 0x4C, true, 7, 1_599);
    assert!(v.toggles && v.swallowed);
    let v = on_key(&mut s, 0x4C, true, 1, 9_000);
    assert!(!v.toggles && !v.swallowed);
    set_custom_hotkey(&mut s, true, "nothing");
    assert!(!s.custom_enabled);
}

#[test]
fn bits_of_modifiers() {
    assert_eq!(modifier_bits(true, false, true, false, false), 5);
    assert_eq!(modifier_bits(false, true, false, true, true), 10);
}

#[test]
fn the_popup_comes_and_goes() {
    let mut p = hidden_popup();
    assert_eq!((toggle_step(&p), show_step(&p)), (PopupStep::Show, PopupStep::Show));
    let before = popup_generation(&p);
    advance_generation(&mut p);
    set_visible(&mut p, true);
    end_show(&mut p, 1_000);
    assert!(popup_visible(&p));
    assert_eq!((toggle_step(&p), show_step(&p)), (PopupStep::Hide, PopupStep::Focus));
    assert!(!hides_unfocused(&p, before, false));
    let shown = popup_generation(&p);
    assert!(hides_unfocused(&p, shown, false));
    assert!(!hides_unfocused(&p, shown, true));
    let hiding = advance_generation(&mut p);
    set_visible(&mut p, false);
    assert!(finishes_hide(&p, hiding));
    assert!(!finishes_hide(&p, shown));
    assert!(!hides_unfocused(&p, hiding, false));
}

#[test]
fn the_guard_covers_a_quarter_second() {
    let mut p = hidden_popup();
    arm_popup_focus_guard(&mut p, 1_000);
    assert!(popup_focus_guard_active(&p, 1_249));
    assert!(!popup_focus_guard_active(&p, 1_250));
    assert_eq!((blur_delay_ms(&p, 1_249), blur_delay_ms(&p, 1_250)), (950, 120));
    arm_popup_focus_guard(&mut p, u64::MAX - 5);
    assert_eq!(p.guard_until_ms, u64::MAX);
}

#[test]
fn windows_stand_in_the_middle() {
    assert_eq!(centered(0, 1920, 720), 600);
    assert_eq!(centered(-1920, 0, 721), -1321);
    assert_eq!(centered(0, 100, 203), -51);
}

#[test]
fn flashing_windows() {
    assert!(is_flash_window(4, 4, true, "Tao Thread Event Target"));
    assert!(!is_flash_window(4, 5, true, "Tao Thread Event Target"));
    assert!(!is_flash_window(4, 4, false, "Tao Thread Event Target"));
    assert!(!is_flash_window(4, 4, true, "Popup"));
}
