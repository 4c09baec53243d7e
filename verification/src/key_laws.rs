//! What keys do to the popup, told by key codes, modifier bits and times.

use vstd::prelude::*;

use crate::hotkey;
use crate::hotkey::HotkeyState;
use crate::text;

verus! {

/// The own hotkey, enabled, with its key pressed while at least its modifiers are held, whichever
/// these are: it is kept from the system, and it calls or hides the popup exactly if 300 milliseconds
/// or more have passed since it last came. From then on its time counts anew, and where it toggles, a
/// press of Ctrl before it does not count any more.
pub proof fn law_own_hotkey_toggles(state: HotkeyState, vk: u32, is_down: bool, mods: u32, now: u64)
    requires
        state.custom_enabled,
        state.custom_vk != 0,
        vk == state.custom_vk,
        mods & state.custom_mods == state.custom_mods,
    ensures
        ({
            let (after, verdict) = hotkey::key_step(state, vk, is_down, mods, now);
            &&& verdict.swallowed
            &&& verdict.toggles <==> now >= state.custom_last_ms + 300
            &&& after.custom_last_ms == now
            &&& verdict.toggles ==> after.last_ctrl_ms == 0
            &&& !verdict.toggles ==> after.last_ctrl_ms == state.last_ctrl_ms
            &&& after.other_key == state.other_key
            &&& after.double_ctrl_enabled == state.double_ctrl_enabled
            &&& after.custom_enabled == state.custom_enabled
            &&& after.custom_mods == state.custom_mods
            &&& after.custom_vk == state.custom_vk
        }),
{
}

/// The own hotkey twice: the second time toggles exactly if it comes 300 milliseconds or more after
/// the first, whatever the first did.
pub proof fn law_own_hotkey_again(
    state: HotkeyState,
    vk: u32,
    mods1: u32,
    mods2: u32,
    t1: u64,
    t2: u64,
)
    requires
        state.custom_enabled,
        state.custom_vk != 0,
        vk == state.custom_vk,
        mods1 & state.custom_mods == state.custom_mods,
        mods2 & state.custom_mods == state.custom_mods,
        t1 <= t2,
    ensures
        ({
            let first = hotkey::key_step(state, vk, true, mods1, t1);
            hotkey::key_step(first.0, vk, true, mods2, t2).1.toggles <==> t2 - t1 >= 300
        }),
{
}

/// A key that is not the own hotkey, because there is none, another key is pressed or a modifier is
/// missing, is left to the system and leaves the own hotkey as it is.
pub proof fn law_other_keys_are_passed_on(
    state: HotkeyState,
    vk: u32,
    is_down: bool,
    mods: u32,
    now: u64,
)
    requires
        !state.custom_enabled || state.custom_vk == 0 || vk != state.custom_vk || mods
            & state.custom_mods != state.custom_mods,
    ensures
        ({
            let (after, verdict) = hotkey::key_step(state, vk, is_down, mods, now);
            &&& !verdict.swallowed
            &&& after.custom_last_ms == state.custom_last_ms
            &&& after.custom_enabled == state.custom_enabled
            &&& after.custom_mods == state.custom_mods
            &&& after.custom_vk == state.custom_vk
            &&& after.double_ctrl_enabled == state.double_ctrl_enabled
            &&& !is_down ==> after == state && !verdict.toggles
        }),
{
}

/// A press of Ctrl (either side, or without a side) toggles the popup exactly if the double press is
/// enabled, Ctrl was pressed before, no other key was pressed since, and the time between is at least
/// 120 and less than 500 milliseconds.
pub proof fn law_ctrl_press_toggles(state: HotkeyState, vk: u32, mods: u32, now: u64)
    requires
        vk == 0x11 || vk == 0xA2 || vk == 0xA3,
        !state.custom_enabled || state.custom_vk == 0 || vk != state.custom_vk || mods
            & state.custom_mods != state.custom_mods,
    ensures
        hotkey::key_step(state, vk, true, mods, now).1.toggles <==> state.double_ctrl_enabled
            && state.last_ctrl_ms != 0 && !state.other_key && state.last_ctrl_ms + 120 <= now
            < state.last_ctrl_ms + 500,
{
}

/// What a press of Ctrl leaves behind: nothing, if it comes within 120 milliseconds of the last one;
/// that no press counts, if it toggled; else its own time, as a first press without another key since
/// (the note of another key stays where the double press is disabled).
pub proof fn law_ctrl_press_is_noted(state: HotkeyState, vk: u32, mods: u32, now: u64)
    requires
        vk == 0x11 || vk == 0xA2 || vk == 0xA3,
        !state.custom_enabled || state.custom_vk == 0 || vk != state.custom_vk || mods
            & state.custom_mods != state.custom_mods,
    ensures
        ({
            let (after, verdict) = hotkey::key_step(state, vk, true, mods, now);
            &&& now < state.last_ctrl_ms + 120 ==> after == state
            &&& verdict.toggles ==> after.last_ctrl_ms == 0 && after.other_key
            &&& now >= state.last_ctrl_ms + 120 && !verdict.toggles ==> after.last_ctrl_ms == now
            &&& now >= state.last_ctrl_ms + 120 && !verdict.toggles && state.double_ctrl_enabled
                ==> !after.other_key
            &&& !state.double_ctrl_enabled ==> after.other_key == state.other_key
        }),
{
}

/// Any key but Ctrl and the own hotkey does not toggle the popup; it is noted as another key, and
/// nothing else changes.
pub proof fn law_other_press_is_noted(state: HotkeyState, vk: u32, mods: u32, now: u64)
    requires
        vk != 0x11,
        vk != 0xA2,
        vk != 0xA3,
        !state.custom_enabled || state.custom_vk == 0 || vk != state.custom_vk || mods
            & state.custom_mods != state.custom_mods,
    ensures
        ({
            let (after, verdict) = hotkey::key_step(state, vk, true, mods, now);
            &&& !verdict.toggles
            &&& after.other_key
            &&& after.last_ctrl_ms == state.last_ctrl_ms
        }),
{
}

/// From a first press of Ctrl on, with nothing between: a second one toggles exactly if it comes at
/// least 120 and less than 500 milliseconds later.
pub proof fn law_two_presses_of_ctrl(
    state: HotkeyState,
    vk1: u32,
    vk2: u32,
    mods: u32,
    t1: u64,
    t2: u64,
)
    requires
        state.double_ctrl_enabled,
        !state.custom_enabled,
        vk1 == 0x11 || vk1 == 0xA2 || vk1 == 0xA3,
        vk2 == 0x11 || vk2 == 0xA2 || vk2 == 0xA3,
        state.last_ctrl_ms + 500 <= t1,
        0 < t1,
        t1 <= t2,
    ensures
        ({
            let first = hotkey::key_step(state, vk1, true, mods, t1);
            let let_go = hotkey::key_step(first.0, vk1, false, mods, t1);
            let second = hotkey::key_step(let_go.0, vk2, true, mods, t2);
            !first.1.toggles && !let_go.1.toggles && (second.1.toggles <==> 120 <= t2 - t1 < 500)
        }),
{
}

/// The texts on both sides of a separator are cut up on their own.
pub proof fn law_split_at_separator(a: Seq<char>, b: Seq<char>, sep: char)
    ensures
        text::split(a.push(sep) + b, sep) == text::split(a, sep) + text::split(b, sep),
        text::split(b, sep).len() > 0,
    decreases b.len(),
{
    let all = a.push(sep) + b;
    if b.len() == 0 {
        assert(all =~= a.push(sep));
        assert(all.drop_last() =~= a);
        assert(text::split(all, sep) =~= text::split(a, sep) + seq![seq![]]);
    } else {
        law_split_at_separator(a, b.drop_last(), sep);
        assert(all.drop_last() =~= a.push(sep) + b.drop_last());
        assert(all.last() == b.last());
        let before = text::split(a, sep);
        let rest = text::split(b.drop_last(), sep);
        if b.last() == sep {
            assert((before + rest).push(seq![]) =~= before + rest.push(seq![]));
        } else {
            assert((before + rest).last() == rest.last());
            assert((before + rest).drop_last() =~= before + rest.drop_last());
            assert((before + rest.drop_last()).push(rest.last().push(b.last())) =~= before
                + rest.drop_last().push(rest.last().push(b.last())));
        }
    }
}

/// A text without a separator is its only part.
pub proof fn law_split_of_one_part(s: Seq<char>, sep: char)
    requires
        !s.contains(sep),
    ensures
        text::split(s, sep) == seq![s],
    decreases s.len(),
{
    if s.len() > 0 {
        assert forall|i: int| 0 <= i < s.drop_last().len() implies s.drop_last()[i] != sep by {
            assert(s.contains(s[i]));
        }
        law_split_of_one_part(s.drop_last(), sep);
        assert(s.contains(s[s.len() - 1]));
        assert(s.drop_last().push(s.last()) =~= s);
        assert(text::split(s, sep) =~= seq![s]);
    } else {
        assert(s =~= seq![]);
    }
}

/// The text is the word for a modifier key with the given bit.
pub open spec fn is_modifier_word(w: Seq<char>, bit: u32) -> bool {
    ||| bit == 1 && (w == seq!['c', 't', 'r', 'l'] || w == seq!['c', 'o', 'n', 't', 'r', 'o', 'l'])
    ||| bit == 2 && w == seq!['a', 'l', 't']
    ||| bit == 4 && w == seq!['s', 'h', 'i', 'f', 't']
    ||| bit == 8 && (w == seq!['w', 'i', 'n'] || w == seq!['m', 'e', 't', 'a'])
}

/// The text is the word for a key with the given code: a letter, a digit, the space bar, or a function
/// key from F1 to F24.
pub open spec fn is_key_word(w: Seq<char>, code: u32) -> bool {
    ||| w.len() == 1 && 'a' <= w[0] <= 'z' && code == w[0] as int - 'a' as int + 0x41
    ||| w.len() == 1 && '0' <= w[0] <= '9' && code == w[0] as int - '0' as int + 0x30
    ||| w == seq!['s', 'p', 'a', 'c', 'e'] && code == 0x20
    ||| w.len() == 2 && w[0] == 'f' && '1' <= w[1] <= '9' && code == 0x70 + (w[1] as int - '1' as int)
    ||| w.len() == 3 && w[0] == 'f' && w[1] == '1' && '0' <= w[2] <= '9' && code == 0x79 + (w[2] as int
        - '0' as int)
    ||| w.len() == 3 && w[0] == 'f' && w[1] == '2' && '0' <= w[2] <= '4' && code == 0x83 + (w[2] as int
        - '0' as int)
}

proof fn lemma_words_are_apart()
    ensures
        "ctrl"@ =~= seq!['c', 't', 'r', 'l'],
        "control"@ =~= seq!['c', 'o', 'n', 't', 'r', 'o', 'l'],
        "alt"@ =~= seq!['a', 'l', 't'],
        "shift"@ =~= seq!['s', 'h', 'i', 'f', 't'],
        "win"@ =~= seq!['w', 'i', 'n'],
        "meta"@ =~= seq!['m', 'e', 't', 'a'],
        "space"@ =~= seq!['s', 'p', 'a', 'c', 'e'],
{
    reveal_strlit("ctrl");
    reveal_strlit("control");
    reveal_strlit("alt");
    reveal_strlit("shift");
    reveal_strlit("win");
    reveal_strlit("meta");
    reveal_strlit("space");
}

/// Lower-case words without blanks are taken as they are.
proof fn lemma_plain_word(w: Seq<char>)
    requires
        w.len() > 0,
        forall|i: int| #![trigger w[i]]
            0 <= i < w.len() ==> 'a' <= w[i] <= 'z' || '0' <= w[i] <= '9',
    ensures
        text::ascii_lower(text::trimmed(w)) == w,
        !w.contains('+'),
{
    assert('a' <= w[0] <= 'z' || '0' <= w[0] <= '9');
    assert('a' <= w[w.len() - 1] <= 'z' || '0' <= w[w.len() - 1] <= '9');
    assert(text::trim_start(w) == w);
    assert(text::trim_end(w) == w);
    assert(text::ascii_lower(w) =~= w);
}

proof fn lemma_word_part(w: Seq<char>, x: u32)
    ensures
        is_modifier_word(w, x) ==> hotkey::parts_of(text::split(w, '+')) == Some(
            (x, Option::<u32>::None),
        ),
        is_key_word(w, x) ==> hotkey::parts_of(text::split(w, '+')) == Some((0u32, Some(x))),
{
    lemma_words_are_apart();
    if is_modifier_word(w, x) || is_key_word(w, x) {
        lemma_plain_word(w);
        law_split_of_one_part(w, '+');
        let one = seq![w];
        assert(one.drop_last() =~= seq![]);
        assert(one.last() == w);
        assert(hotkey::parts_of(one.drop_last()) == Some((0u32, Option::<u32>::None)));
        assert(0u32 | x == x) by (bit_vector);
        if is_modifier_word(w, x) {
            assert(hotkey::part_of(w) == hotkey::HotkeyPart::Modifier(x));
        } else {
            assert(w.len() == 1 || w.len() == 2 || w.len() == 3 || w[0] == 's' && w.len() == 5);
            if w.len() == 2 || w.len() == 3 {
                let digits = w.drop_first();
                assert(w[0] == 'f');
                assert(digits[0] == w[1]);
                if w.len() == 3 {
                    assert(digits[1] == w[2]);
                    assert(digits.drop_last() =~= seq![w[1]]);
                    assert(digits.last() == w[2]);
                }
                assert(seq![w[1]].drop_last() =~= seq![]);
                assert(hotkey::digits_value(seq![w[1]].drop_last()) == 0);
                assert(hotkey::digits_value(seq![w[1]]) == w[1] as int - 0x30);
                if w.len() == 2 {
                    assert(digits =~= seq![w[1]]);
                }
                assert(hotkey::all_digits(digits));
            }
            assert(hotkey::part_of(w) == hotkey::HotkeyPart::Key(x));
        }
    }
}

proof fn lemma_parts_join(a: Seq<Seq<char>>, b: Seq<Seq<char>>)
    ensures
        hotkey::parts_of(a + b) == match (hotkey::parts_of(a), hotkey::parts_of(b)) {
            (Some((m1, k1)), Some((m2, k2))) => Some(
                (
                    m1 | m2,
                    if k2 is Some {
                        k2
                    } else {
                        k1
                    },
                ),
            ),
            _ => None,
        },
    decreases b.len(),
{
    if b.len() == 0 {
        assert(a + b =~= a);
        if hotkey::parts_of(a) is Some {
            let m = (hotkey::parts_of(a)->0).0;
            assert(m | 0u32 == m) by (bit_vector);
        }
    } else {
        lemma_parts_join(a, b.drop_last());
        assert((a + b).drop_last() =~= a + b.drop_last());
        assert((a + b).last() == b.last());
        if hotkey::parts_of(a) is Some && hotkey::parts_of(b.drop_last()) is Some {
            let m1 = (hotkey::parts_of(a)->0).0;
            let m2 = (hotkey::parts_of(b.drop_last())->0).0;
            if hotkey::part_of(text::ascii_lower(text::trimmed(b.last()))) is Modifier {
                let m3 = hotkey::part_of(text::ascii_lower(text::trimmed(b.last())))->Modifier_0;
                assert((m1 | m2) | m3 == m1 | (m2 | m3)) by (bit_vector);
            }
        }
    }
}

/// A modifier word, a `+` and a key word are the hotkey with this modifier and this key, in either
/// order. Either of them alone is none.
pub proof fn law_hotkey_of_two_words(w: Seq<char>, bit: u32, k: Seq<char>, code: u32)
    requires
        is_modifier_word(w, bit),
        is_key_word(k, code),
    ensures
        hotkey::hotkey_of(w.push('+') + k) == Some((bit, code)),
        hotkey::hotkey_of(k.push('+') + w) == Some((bit, code)),
        hotkey::hotkey_of(w) is None,
        hotkey::hotkey_of(k) is None,
{
    lemma_word_part(w, bit);
    lemma_word_part(k, code);
    law_split_at_separator(w, k, '+');
    law_split_at_separator(k, w, '+');
    lemma_parts_join(text::split(w, '+'), text::split(k, '+'));
    lemma_parts_join(text::split(k, '+'), text::split(w, '+'));
    assert(bit | 0u32 == bit && 0u32 | bit == bit) by (bit_vector);
}

/// One more modifier word, before or behind, adds its modifier to a hotkey; one more key word behind
/// changes its key; nothing between two `+`, or at an end, changes nothing.
pub proof fn law_hotkey_with_one_more_word(
    s: Seq<char>,
    mods: u32,
    key: u32,
    w: Seq<char>,
    bit: u32,
    k: Seq<char>,
    code: u32,
)
    requires
        hotkey::hotkey_of(s) == Some((mods, key)),
        is_modifier_word(w, bit),
        is_key_word(k, code),
    ensures
        hotkey::hotkey_of(w.push('+') + s) == Some((bit | mods, key)),
        hotkey::hotkey_of(s.push('+') + w) == Some((mods | bit, key)),
        hotkey::hotkey_of(s.push('+') + k) == Some((mods, code)),
        hotkey::hotkey_of(k.push('+') + s) == Some((mods, key)),
        hotkey::hotkey_of(s.push('+')) == Some((mods, key)),
{
    let nothing: Seq<char> = seq![];
    lemma_word_part(w, bit);
    lemma_word_part(k, code);
    law_split_at_separator(w, s, '+');
    law_split_at_separator(s, w, '+');
    law_split_at_separator(s, k, '+');
    law_split_at_separator(k, s, '+');
    law_split_at_separator(s, nothing, '+');
    lemma_parts_join(text::split(w, '+'), text::split(s, '+'));
    lemma_parts_join(text::split(s, '+'), text::split(w, '+'));
    lemma_parts_join(text::split(s, '+'), text::split(k, '+'));
    lemma_parts_join(text::split(k, '+'), text::split(s, '+'));
    lemma_parts_join(text::split(s, '+'), text::split(nothing, '+'));
    assert(s.push('+') + nothing =~= s.push('+'));
    lemma_words_are_apart();
    let one = seq![nothing];
    assert(one.drop_last() =~= seq![]);
    assert(hotkey::parts_of(one.drop_last()) == Some((0u32, Option::<u32>::None)));
    assert(text::trimmed(nothing) =~= nothing);
    assert(text::ascii_lower(nothing) =~= nothing);
    assert(hotkey::part_of(nothing) is Unknown);
    assert(hotkey::parts_of(one) == Some((0u32, Option::<u32>::None)));
    assert(mods | 0u32 == mods && 0u32 | mods == mods && (mods != 0 ==> mods | bit != 0 && bit | mods
        != 0)) by (bit_vector);
}

/// Two letters are the same but for the case of an ASCII letter.
pub open spec fn same_letter(a: char, b: char) -> bool {
    ||| a == b
    ||| 'A' <= a <= 'Z' && b as int == a as int + 32
    ||| 'A' <= b <= 'Z' && a as int == b as int + 32
}

/// Two texts are the same but for the case of ASCII letters.
pub open spec fn same_letters(a: Seq<char>, b: Seq<char>) -> bool {
    a.len() == b.len() && forall|i: int| #![trigger a[i]] #![trigger b[i]]
        0 <= i < a.len() ==> same_letter(a[i], b[i])
}

proof fn lemma_trim_start_alike(a: Seq<char>, b: Seq<char>)
    requires
        same_letters(a, b),
    ensures
        same_letters(text::trim_start(a), text::trim_start(b)),
    decreases a.len(),
{
    if a.len() > 0 {
        assert(same_letter(a[0], b[0]));
        if text::is_space(a[0]) {
            assert forall|i: int| 0 <= i < a.drop_first().len() implies same_letter(
                #[trigger] a.drop_first()[i],
                b.drop_first()[i],
            ) by {
                assert(same_letter(a[i + 1], b[i + 1]));
            }
            assert(same_letters(a.drop_first(), b.drop_first()));
            lemma_trim_start_alike(a.drop_first(), b.drop_first());
        }
    }
}

proof fn lemma_trim_end_alike(a: Seq<char>, b: Seq<char>)
    requires
        same_letters(a, b),
    ensures
        same_letters(text::trim_end(a), text::trim_end(b)),
    decreases a.len(),
{
    if a.len() > 0 {
        assert(same_letter(a[a.len() - 1], b[a.len() - 1]));
        if text::is_space(a.last()) {
            assert forall|i: int| 0 <= i < a.drop_last().len() implies same_letter(
                #[trigger] a.drop_last()[i],
                b.drop_last()[i],
            ) by {
                assert(same_letter(a[i], b[i]));
            }
            assert(same_letters(a.drop_last(), b.drop_last()));
            lemma_trim_end_alike(a.drop_last(), b.drop_last());
        }
    }
}

proof fn lemma_words_alike(a: Seq<char>, b: Seq<char>)
    requires
        same_letters(a, b),
    ensures
        text::ascii_lower(text::trimmed(a)) == text::ascii_lower(text::trimmed(b)),
{
    lemma_trim_start_alike(a, b);
    lemma_trim_end_alike(text::trim_start(a), text::trim_start(b));
    let x = text::trimmed(a);
    let y = text::trimmed(b);
    assert forall|i: int| 0 <= i < x.len() implies text::lower_char(x[i]) == text::lower_char(y[i]) by {
        assert(same_letter(x[i], y[i]));
    }
    assert(text::ascii_lower(x) =~= text::ascii_lower(y));
}

proof fn lemma_split_alike(a: Seq<char>, b: Seq<char>)
    requires
        same_letters(a, b),
    ensures
        text::split(a, '+').len() == text::split(b, '+').len() > 0,
        forall|i: int| #![trigger text::split(a, '+')[i]] #![trigger text::split(b, '+')[i]]
            0 <= i < text::split(a, '+').len() ==> same_letters(
                text::split(a, '+')[i],
                text::split(b, '+')[i],
            ),
    decreases a.len(),
{
    if a.len() > 0 {
        let c = a.drop_last();
        let d = b.drop_last();
        assert forall|i: int| 0 <= i < c.len() implies same_letter(#[trigger] c[i], d[i]) by {
            assert(same_letter(a[i], b[i]));
        }
        assert(same_letters(c, d));
        lemma_split_alike(c, d);
        assert(same_letter(a[a.len() - 1], b[a.len() - 1]));
        let x = text::split(c, '+');
        let y = text::split(d, '+');
        let n = x.len() - 1;
        assert(same_letters(x[n], y[n]));
        assert forall|i: int| #![trigger text::split(a, '+')[i]] #![trigger text::split(b, '+')[i]]
            0 <= i < text::split(a, '+').len() implies same_letters(
            text::split(a, '+')[i],
            text::split(b, '+')[i],
        ) by {
            if i < n {
                assert(same_letters(x[i], y[i]));
            } else if i == n && a.last() != '+' {
                let p = x[n].push(a.last());
                let q = y[n].push(b.last());
                assert forall|j: int| 0 <= j < p.len() implies same_letter(#[trigger] p[j], q[j]) by {
                    if j < x[n].len() {
                        assert(same_letter(x[n][j], y[n][j]));
                    }
                }
                assert(same_letters(p, q));
            }
        }
    }
}

proof fn lemma_parts_alike(a: Seq<Seq<char>>, b: Seq<Seq<char>>)
    requires
        a.len() == b.len(),
        forall|i: int| #![trigger a[i]] #![trigger b[i]] 0 <= i < a.len() ==> same_letters(a[i], b[i]),
    ensures
        hotkey::parts_of(a) == hotkey::parts_of(b),
    decreases a.len(),
{
    if a.len() > 0 {
        assert forall|i: int| #![trigger a.drop_last()[i]] #![trigger b.drop_last()[i]]
            0 <= i < a.drop_last().len() implies same_letters(a.drop_last()[i], b.drop_last()[i]) by {
            assert(same_letters(a[i], b[i]));
        }
        lemma_parts_alike(a.drop_last(), b.drop_last());
        assert(same_letters(a[a.len() - 1], b[a.len() - 1]));
        lemma_words_alike(a.last(), b.last());
    }
}

/// The case of letters does not count in the text of a hotkey.
pub proof fn law_hotkey_in_any_case(a: Seq<char>, b: Seq<char>)
    requires
        same_letters(a, b),
    ensures
        hotkey::hotkey_of(a) == hotkey::hotkey_of(b),
{
    lemma_split_alike(a, b);
    lemma_parts_alike(text::split(a, '+'), text::split(b, '+'));
}

proof fn lemma_trim_end_blank(a: Seq<char>, blank: char)
    requires
        text::is_space(blank),
    ensures
        text::trimmed(a.push(blank)) == text::trimmed(a),
    decreases a.len(),
{
    let b = a.push(blank);
    if a.len() == 0 {
        assert(b.drop_first() =~= a);
    } else if text::is_space(a[0]) {
        assert(b.drop_first() =~= a.drop_first().push(blank));
        lemma_trim_end_blank(a.drop_first(), blank);
    } else {
        assert(text::trim_start(b) == b);
        assert(b.drop_last() =~= a);
    }
}

proof fn lemma_last_part_blank(a: Seq<char>, blank: char)
    requires
        blank != '+',
    ensures
        text::split(a, '+').len() > 0,
        text::split(a.push(blank), '+') == text::split(a, '+').drop_last().push(
            text::split(a, '+').last().push(blank),
        ),
    decreases a.len(),
{
    assert(a.push(blank).drop_last() =~= a);
    if a.len() > 0 {
        lemma_last_part_blank(a.drop_last(), blank);
    }
}

/// Blanks around the words do not count in the text of a hotkey.
pub proof fn law_hotkey_with_blanks(a: Seq<char>, b: Seq<char>, blank: char)
    requires
        text::is_space(blank),
    ensures
        hotkey::hotkey_of(a.push(blank).push('+') + b) == hotkey::hotkey_of(a.push('+') + b),
        hotkey::hotkey_of(a.push('+') + (seq![blank] + b)) == hotkey::hotkey_of(a.push('+') + b),
        hotkey::hotkey_of(a.push(blank)) == hotkey::hotkey_of(a),
        hotkey::hotkey_of(seq![blank] + b) == hotkey::hotkey_of(b),
{
    let x = text::split(a, '+');
    let y = text::split(b, '+');
    lemma_last_part_blank(a, blank);
    let x2 = text::split(a.push(blank), '+');
    lemma_trim_end_blank(x.last(), blank);
    assert(x2.drop_last() =~= x.drop_last());
    assert(hotkey::parts_of(x2) == hotkey::parts_of(x));
    law_split_at_separator(a, b, '+');
    law_split_at_separator(a.push(blank), b, '+');
    lemma_parts_join(x, y);
    lemma_parts_join(x2, y);
    lemma_first_part_blank(b, blank);
    law_split_at_separator(a, seq![blank] + b, '+');
    let y2 = text::split(seq![blank] + b, '+');
    lemma_parts_join(x, y2);
    lemma_front_part(y2, y, blank);
}

proof fn lemma_first_part_blank(b: Seq<char>, blank: char)
    requires
        blank != '+',
    ensures
        text::split(b, '+').len() > 0,
        text::split(seq![blank] + b, '+').len() == text::split(b, '+').len(),
        text::split(seq![blank] + b, '+').drop_first() == text::split(b, '+').drop_first(),
        text::split(seq![blank] + b, '+')[0] == seq![blank] + text::split(b, '+')[0],
    decreases b.len(),
{
    let all = seq![blank] + b;
    if b.len() == 0 {
        assert(all.drop_last() =~= seq![]);
        assert(all.last() == blank);
        let none: Seq<char> = seq![];
        assert(text::split(all.drop_last(), '+') == seq![none]);
        assert(text::split(all, '+') =~= seq![none.push(blank)]);
        assert(none.push(blank) =~= seq![blank] + none);
        assert(text::split(all, '+').drop_first() =~= text::split(b, '+').drop_first());
    } else {
        lemma_first_part_blank(b.drop_last(), blank);
        assert(all.drop_last() =~= seq![blank] + b.drop_last());
        assert(all.last() == b.last());
        let p = text::split(all.drop_last(), '+');
        let q = text::split(b.drop_last(), '+');
        assert forall|i: int| 0 < i < p.len() implies p[i] == q[i] by {
            assert(p.drop_first()[i - 1] == q.drop_first()[i - 1]);
        }
        let r = text::split(all, '+');
        let t = text::split(b, '+');
        assert(r.drop_first() =~= t.drop_first());
        if p.len() == 1 && b.last() != '+' {
            assert(r[0] =~= seq![blank] + t[0]);
        }
    }
}

proof fn lemma_trim_start_blank(b: Seq<char>, blank: char)
    requires
        text::is_space(blank),
    ensures
        text::trimmed(seq![blank] + b) == text::trimmed(b),
{
    assert((seq![blank] + b).drop_first() =~= b);
}

proof fn lemma_front_part(y2: Seq<Seq<char>>, y: Seq<Seq<char>>, blank: char)
    requires
        text::is_space(blank),
        y2.len() == y.len() > 0,
        y2.drop_first() == y.drop_first(),
        y2[0] == seq![blank] + y[0],
    ensures
        hotkey::parts_of(y2) == hotkey::parts_of(y),
{
    let first2 = seq![y2[0]];
    let first = seq![y[0]];
    assert(y2 =~= first2 + y2.drop_first());
    assert(y =~= first + y.drop_first());
    lemma_parts_join(first2, y2.drop_first());
    lemma_parts_join(first, y.drop_first());
    lemma_trim_start_blank(y[0], blank);
    assert(first2.drop_last() =~= first.drop_last());
    assert(first2.last() == y2[0] && first.last() == y[0]);
}

proof fn lemma_hotkey_trim_start(s: Seq<char>)
    ensures
        hotkey::hotkey_of(text::trim_start(s)) == hotkey::hotkey_of(s),
    decreases s.len(),
{
    if s.len() > 0 && text::is_space(s.first()) {
        lemma_hotkey_trim_start(s.drop_first());
        law_hotkey_with_blanks(s, s.drop_first(), s.first());
        assert(seq![s.first()] + s.drop_first() =~= s);
    }
}

proof fn lemma_hotkey_trim_end(s: Seq<char>)
    ensures
        hotkey::hotkey_of(text::trim_end(s)) == hotkey::hotkey_of(s),
    decreases s.len(),
{
    if s.len() > 0 && text::is_space(s.last()) {
        lemma_hotkey_trim_end(s.drop_last());
        law_hotkey_with_blanks(s.drop_last(), s, s.last());
        assert(s.drop_last().push(s.last()) =~= s);
    }
}

/// Blanks at the ends of the text of a hotkey do not count.
pub proof fn law_hotkey_with_blank_ends(s: Seq<char>)
    ensures
        hotkey::hotkey_of(text::trimmed(s)) == hotkey::hotkey_of(s),
{
    lemma_hotkey_trim_start(s);
    lemma_hotkey_trim_end(text::trim_start(s));
}

/// An empty text is no hotkey.
pub proof fn law_no_words_no_hotkey()
    ensures
        hotkey::hotkey_of(seq![]) is None,
{
    let nothing: Seq<char> = seq![];
    let one = seq![nothing];
    lemma_words_are_apart();
    assert(one.drop_last() =~= seq![]);
    assert(hotkey::parts_of(one.drop_last()) == Some((0u32, Option::<u32>::None)));
    assert(one.last() == nothing);
    assert(text::trimmed(nothing) =~= nothing);
    assert(text::ascii_lower(nothing) =~= nothing);
    assert(hotkey::part_of(nothing) is Unknown);
}

/// A popup that has the focus is never hidden for want of it, nor is one that is not there; one that
/// is there without the focus is hidden exactly if it was neither shown nor hidden since.
pub proof fn law_popup_without_focus(popup: hotkey::PopupState, generation: u64)
    ensures
        !hotkey::hides(popup, generation, true),
        !popup.visible ==> !hotkey::hides(popup, generation, false),
        popup.visible ==> (hotkey::hides(popup, generation, false) <==> popup.generation == generation),
{
}

/// A generation is followed by the next number, and the last one by the first.
pub proof fn law_generations_follow_each_other(generation: u64)
    ensures
        (hotkey::next_generation(generation) - generation - 1) % 0x1_0000_0000_0000_0000 == 0,
{
}

/// A window in the middle has as much room before it as behind it, but for one pixel.
pub proof fn law_centered_window(low: int, high: int, size: int)
    requires
        low + size <= high,
    ensures
        ({
            let at = low + hotkey::half(high - low - size);
            &&& low <= at
            &&& at + size <= high
            &&& 0 <= (high - at - size) - (at - low) <= 1
        }),
{
}

/// The bits of the modifiers that are held are 1 for Ctrl, 2 for Alt, 4 for Shift and 8 for a Windows
/// key, each set exactly where the key is held.
pub proof fn law_modifier_bits(ctrl: bool, alt: bool, shift: bool, win: bool)
    ensures
        ({
            let bits = hotkey::bits_of(ctrl, alt, shift, win) as u32;
            &&& 0 <= hotkey::bits_of(ctrl, alt, shift, win) < 16
            &&& (bits & 1 != 0) == ctrl
            &&& (bits & 2 != 0) == alt
            &&& (bits & 4 != 0) == shift
            &&& (bits & 8 != 0) == win
        }),
{
    let bits = hotkey::bits_of(ctrl, alt, shift, win) as u32;
    assert(bits < 16 ==> (bits & 1 != 0) == (bits % 2 == 1) && (bits & 2 != 0) == (bits % 4 >= 2) && (
    bits & 4 != 0) == (bits % 8 >= 4) && (bits & 8 != 0) == (bits >= 8)) by (bit_vector);
}

/// A hotkey that was set and enabled calls the popup when its key is pressed with its modifiers, and
/// is kept from the system; one that was set and not enabled, or a text that is none, leaves every key
/// to the system. Setting it changes nothing else.
pub proof fn law_hotkey_that_was_set(
    state: HotkeyState,
    s: Seq<char>,
    vk: u32,
    is_down: bool,
    mods: u32,
    now: u64,
)
    ensures
        ({
            let set = hotkey::with_custom(state, true, s);
            let unset = hotkey::with_custom(state, false, s);
            &&& hotkey::hotkey_of(s) matches Some((m, k)) ==> {
                &&& k != 0 && vk == k && mods & m == m ==> {
                    let verdict = hotkey::key_step(set, vk, is_down, mods, now).1;
                    verdict.swallowed && (verdict.toggles <==> now >= state.custom_last_ms + 300)
                }
                &&& vk != k || mods & m != m ==> !hotkey::key_step(set, vk, is_down, mods, now).1.swallowed
            }
            &&& hotkey::hotkey_of(s) is None ==> !hotkey::key_step(
                set,
                vk,
                is_down,
                mods,
                now,
            ).1.swallowed
            &&& !hotkey::key_step(unset, vk, is_down, mods, now).1.swallowed
            &&& set.double_ctrl_enabled == state.double_ctrl_enabled
            &&& set.last_ctrl_ms == state.last_ctrl_ms
            &&& set.other_key == state.other_key
            &&& set.custom_last_ms == state.custom_last_ms
        }),
{
}

/// A popup is guarded for 250 milliseconds from when it is called. A loss of focus in that time is
/// looked at again after 950 milliseconds, and any other after 120.
pub proof fn law_popup_is_guarded(popup: hotkey::PopupState, called: u64, now: u64)
    requires
        called + 250 <= u64::MAX,
    ensures
        ({
            let armed = hotkey::PopupState { guard_until_ms: hotkey::guarded_until(called), ..popup };
            hotkey::blur_wait(armed, now) == if now < called + 250 {
                950int
            } else {
                120
            }
        }),
{
}

/// The text is `f` with a number behind it.
pub open spec fn is_function_word(w: Seq<char>, n: nat) -> bool {
    w.len() >= 2 && w[0] == 'f' && (forall|i: int| #![trigger w[i]]
        0 < i < w.len() ==> '0' <= w[i] <= '9') && hotkey::digits_value(w.drop_first()) == n
}

/// A function key from F1 to F24 is a key; one with another number does not count; and with a number
/// beyond 32 bits the whole text is no hotkey.
pub proof fn law_function_keys(s: Seq<char>, mods: u32, key: u32, w: Seq<char>, n: nat)
    requires
        hotkey::hotkey_of(s) == Some((mods, key)),
        is_function_word(w, n),
    ensures
        1 <= n <= 24 ==> hotkey::hotkey_of(s.push('+') + w) == Some((mods, (0x6F + n) as u32)),
        n == 0 || 24 < n <= u32::MAX ==> hotkey::hotkey_of(s.push('+') + w) == Some((mods, key)),
        n > u32::MAX ==> hotkey::hotkey_of(s.push('+') + w) is None,
{
    lemma_words_are_apart();
    assert forall|i: int| #![trigger w[i]] 0 <= i < w.len() implies 'a' <= w[i] <= 'z' || '0' <= w[i]
        <= '9' by {
        if i > 0 {
            assert('0' <= w[i] <= '9');
        }
    }
    lemma_plain_word(w);
    law_split_of_one_part(w, '+');
    law_split_at_separator(s, w, '+');
    let one = seq![w];
    assert(one.drop_last() =~= seq![]);
    assert(one.last() == w);
    assert(hotkey::parts_of(one.drop_last()) == Some((0u32, Option::<u32>::None)));
    let digits = w.drop_first();
    assert forall|i: int| #![trigger digits[i]] 0 <= i < digits.len() implies '0' <= digits[i] <= '9' by {
        assert(digits[i] == w[i + 1]);
    }
    assert('0' <= w[1] <= '9');
    assert(hotkey::all_digits(digits));
    lemma_parts_join(text::split(s, '+'), one);
    assert(mods | 0u32 == mods) by (bit_vector);
}

/// A word of two letters or more that does not begin with `f` and is none of the words for modifiers
/// and the space bar does not count.
pub proof fn law_unknown_words(s: Seq<char>, mods: u32, key: u32, w: Seq<char>)
    requires
        hotkey::hotkey_of(s) == Some((mods, key)),
        w.len() >= 2,
        w[0] != 'f',
        forall|i: int| #![trigger w[i]] 0 <= i < w.len() ==> 'a' <= w[i] <= 'z' || '0' <= w[i] <= '9',
        !is_modifier_word(w, 1) && !is_modifier_word(w, 2) && !is_modifier_word(w, 4)
            && !is_modifier_word(w, 8),
        w != seq!['s', 'p', 'a', 'c', 'e'],
    ensures
        hotkey::hotkey_of(s.push('+') + w) == Some((mods, key)),
{
    lemma_words_are_apart();
    lemma_plain_word(w);
    law_split_of_one_part(w, '+');
    law_split_at_separator(s, w, '+');
    let one = seq![w];
    assert(one.drop_last() =~= seq![]);
    assert(one.last() == w);
    assert(hotkey::parts_of(one.drop_last()) == Some((0u32, Option::<u32>::None)));
    assert(hotkey::part_of(w) is Unknown);
    lemma_parts_join(text::split(s, '+'), one);
    assert(mods | 0u32 == mods) by (bit_vector);
}

} // verus!
