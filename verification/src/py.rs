//! Pinyin: the spelling of a name that holds Chinese characters, in lower case (`微信.png` gives
//! `weixin.png`).
//!
//! Only names with Chinese characters have a spelling. It goes into the pinyin pool, where both
//! full spellings and initials are looked for (initials are a subsequence of the spelling).

use pinyin::ToPinyin;
use vstd::prelude::*;

use crate::text;
use crate::text::{char_code, chars_of, from_utf16_lossy, to_lower_char, to_utf16};

verus! {

/// A character of the CJK ideograph blocks.
pub open spec fn is_cjk_char(c: char) -> bool {
    ||| 0x3400 <= c as int <= 0x9FFF
    ||| 0xF900 <= c as int <= 0xFAFF
    ||| 0x20000 <= c as int <= 0x2FA1F
}

/// Whether the text holds a Chinese character.
pub open spec fn cjk_in(s: Seq<char>) -> bool {
    exists|i: int| 0 <= i < s.len() && is_cjk_char(#[trigger] s[i])
}

/// The toneless pinyin that the `pinyin` crate's table gives for a character, if any.
pub uninterp spec fn pinyin_reading(c: char) -> Option<Seq<char>>;

/// The text of an optional string.
pub open spec fn reading_text(r: Option<&str>) -> Option<Seq<char>> {
    match r {
        Some(s) => Some(s@),
        None => None,
    }
}

/// The text with each character that has a reading replaced by it, and its ASCII letters in lower
/// case.
pub open spec fn spell(s: Seq<char>, readings: Seq<Option<Seq<char>>>) -> Seq<char>
    decreases s.len(),
{
    if s.len() == 0 {
        seq![]
    } else {
        spell(s.drop_last(), readings) + match readings[s.len() - 1] {
            Some(r) => r,
            None => seq![text::lower_char(s.last())],
        }
    }
}

/// The spelling of a text whose characters have the given readings: `None` where no character is
/// Chinese or none has a reading.
pub open spec fn spelling(s: Seq<char>, readings: Seq<Option<Seq<char>>>) -> Option<Seq<u16>> {
    if cjk_in(s) && exists|i: int| 0 <= i < s.len() && #[trigger] readings[i] is Some {
        Some(text::utf16(spell(s, readings)))
    } else {
        None
    }
}

/// The readings of the characters of a text.
pub open spec fn readings_of(s: Seq<char>) -> Seq<Option<Seq<char>>> {
    Seq::new(s.len(), |i: int| pinyin_reading(s[i]))
}

/// The pinyin spelling of a UTF-16 name.
pub open spec fn name_spelling(name: Seq<u16>) -> Option<Seq<u16>> {
    spelling(text::utf16_lossy(name), readings_of(text::utf16_lossy(name)))
}

/// How many letters a reading has at most (`shuang`).
pub const READING_MAX: usize = 6;

/// How many units of a spelling come from one unit of a name at most: the letters of a reading, which
/// are taken to be of up to two units each.
pub const GROWTH_MAX: usize = 12;

/// A reading, if there is one, has from one to six letters, none of them in upper case.
pub open spec fn is_reading(r: Option<Seq<char>>) -> bool {
    r matches Some(s) ==> 0 < s.len() <= READING_MAX && is_lower(s)
}

/// `ToPinyin::to_pinyin` of the `pinyin` crate on a character, followed by `Pinyin::plain`: a
/// lookup in the crate's constant table, named [`pinyin_reading`]. The table is made from the
/// crate's `pinyin-data/pinyin.txt` by its build script, which stops at anything but lower-case
/// letters and tone marks, and the first readings listed there, which are those that are looked up,
/// have from one to six letters each.
#[verifier::external_body]
fn char_pinyin(c: char) -> (r: Option<&'static str>)
    ensures
        reading_text(r) == pinyin_reading(c),
        is_reading(reading_text(r)),
{
    c.to_pinyin().map(|p| p.plain())
}

/// Whether the text holds a Chinese character.
pub fn has_cjk(s: &str) -> (r: bool)
    ensures
        r == cjk_in(s@),
{
    let chars = chars_of(s);
    for i in 0..chars.len()
        invariant
            chars@ == s@,
            forall|j: int| 0 <= j < i ==> !is_cjk_char(#[trigger] s@[j]),
    {
        let code: u32 = char_code(chars[i]);
        if (code >= 0x3400 && code <= 0x9FFF) || (code >= 0xF900 && code <= 0xFAFF) || (code
            >= 0x20000 && code <= 0x2FA1F) {
            assert(is_cjk_char(s@[i as int]));
            return true;
        }
    }
    false
}

/// The spelling of a text, given the reading of each of its characters.
pub fn spell_with(s: &str, readings: &[Option<&str>]) -> (r: Option<Vec<u16>>)
    requires
        readings@.len() == s@.len(),
    ensures
        match r {
            Some(units) => spelling(s@, readings@.map_values(|x: Option<&str>| reading_text(x)))
                == Some(units@),
            None => spelling(s@, readings@.map_values(|x: Option<&str>| reading_text(x))) is None,
        },
{
    let ghost texts = readings@.map_values(|x: Option<&str>| reading_text(x));
    if !has_cjk(s) {
        return None;
    }
    let chars = chars_of(s);
    let mut out = String::new();
    let mut changed = false;
    for i in 0..chars.len()
        invariant
            chars@ == s@,
            readings@.len() == s@.len(),
            texts == readings@.map_values(|x: Option<&str>| reading_text(x)),
            out@ == spell(s@.take(i as int), texts),
            changed <==> exists|j: int| 0 <= j < i && #[trigger] texts[j] is Some,
    {
        assert(s@.take(i + 1).drop_last() == s@.take(i as int));
        assert(texts[i as int] == reading_text(readings@[i as int]));
        match readings[i] {
            Some(p) => {
                out.append(p);
                changed = true;
            },
            None => {
                out.push(to_lower_char(chars[i]));
                assert(out@ == spell(s@.take(i as int), texts) + seq![
                    text::lower_char(s@[i as int]),
                ]);
            },
        }
    }
    assert(s@.take(s@.len() as int) == s@);
    if !changed {
        return None;
    }
    Some(to_utf16(out.as_str()))
}

/// The spelling of a name, if it has one, is not empty, is at most so much longer than the name, and
/// is in lower case.
pub open spec fn is_spelling_of(py: Option<Seq<u16>>, name: Seq<u16>) -> bool {
    py matches Some(p) ==> 0 < p.len() <= GROWTH_MAX * name.len() && is_lower_units(p)
}

/// The pinyin spelling of a UTF-16 name; `None` without Chinese characters.
pub fn pinyin_of(name: &[u16]) -> (r: Option<Vec<u16>>)
    ensures
        match r {
            Some(units) => name_spelling(name@) == Some(units@),
            None => name_spelling(name@) is None,
        },
        is_spelling_of(name_spelling(name@), name@),
{
    let s = from_utf16_lossy(name);
    if !has_cjk(s.as_str()) {
        return None;
    }
    let chars = chars_of(s.as_str());
    let mut readings: Vec<Option<&str>> = Vec::new();
    for i in 0..chars.len()
        invariant
            chars@ == s@,
            readings@.len() == i,
            forall|j: int|
                0 <= j < i ==> reading_text(#[trigger] readings@[j]) == pinyin_reading(s@[j])
                    && is_reading(reading_text(readings@[j])),
    {
        readings.push(char_pinyin(chars[i]));
    }
    proof {
        let texts = readings_of(s@);
        assert(readings@.map_values(|x: Option<&str>| reading_text(x)) =~= texts);
        assert forall|i: int| #![trigger texts[i]] 0 <= i < s@.len() implies is_reading(texts[i]) by {
            assert(reading_text(readings@[i]) == texts[i]);
        }
        lemma_spelling_size(s@, texts);
        text::lemma_utf16_size(spell(s@, texts));
        text::lemma_lossy_size(name@);
        law_spelling_is_lower_case(s@, texts);
        lemma_lower_units(spell(s@, texts));
    }
    spell_with(s.as_str(), readings.as_slice())
}

/// The text holds no ASCII letter in upper case.
pub open spec fn is_lower(s: Seq<char>) -> bool {
    forall|i: int| #![trigger s[i]] 0 <= i < s.len() ==> !('A' <= s[i] <= 'Z')
}

/// The units hold no ASCII letter in upper case.
pub open spec fn is_lower_units(u: Seq<u16>) -> bool {
    forall|i: int| #![trigger u[i]] 0 <= i < u.len() ==> !(0x41 <= u[i] <= 0x5A)
}

proof fn lemma_lower_unit(c: char)
    requires
        !('A' <= c <= 'Z'),
    ensures
        is_lower_units(text::utf16_units(c)),
{
    let over = c as int - 0x10000;
    if over >= 0 {
        assert(over / 0x400 < 0x400);
    }
}

proof fn lemma_lower_units(s: Seq<char>)
    requires
        is_lower(s),
    ensures
        is_lower_units(text::utf16(s)),
    decreases s.len(),
{
    if s.len() > 0 {
        let rest = text::utf16(s.drop_last());
        let all = text::utf16(s);
        let c = s[s.len() - 1];
        lemma_lower_units(s.drop_last());
        assert(!('A' <= c <= 'Z'));
        lemma_lower_unit(c);
        assert forall|i: int| #![trigger all[i]] 0 <= i < all.len() implies !(0x41 <= all[i] <= 0x5A) by {
            if i < rest.len() {
                assert(all[i] == rest[i]);
            } else {
                assert(all[i] == text::utf16_units(c)[i - rest.len()]);
            }
        }
    }
}

/// A text grows by its readings, and no character of it is left without a trace.
proof fn lemma_spelling_size(s: Seq<char>, readings: Seq<Option<Seq<char>>>)
    requires
        forall|i: int| #![trigger readings[i]] 0 <= i < s.len() ==> is_reading(readings[i]),
    ensures
        s.len() <= spell(s, readings).len() <= READING_MAX * s.len(),
    decreases s.len(),
{
    if s.len() > 0 {
        lemma_spelling_size(s.drop_last(), readings);
        assert(is_reading(readings[s.len() - 1]));
    }
}

/// A spelling is in lower case, as far as the readings are.
pub proof fn law_spelling_is_lower_case(s: Seq<char>, readings: Seq<Option<Seq<char>>>)
    requires
        forall|i: int| #![trigger readings[i]]
            0 <= i < s.len() ==> (readings[i] matches Some(r) ==> is_lower(r)),
    ensures
        is_lower(spell(s, readings)),
    decreases s.len(),
{
    if s.len() > 0 {
        law_spelling_is_lower_case(s.drop_last(), readings);
        let last = readings[s.len() - 1];
        let piece = match last {
            Some(r) => r,
            None => seq![text::lower_char(s.last())],
        };
        assert(is_lower(piece));
        let rest = spell(s.drop_last(), readings);
        let all = spell(s, readings);
        assert forall|i: int| #![trigger all[i]] 0 <= i < all.len() implies !('A' <= all[i] <= 'Z') by {
            if i < rest.len() {
                assert(all[i] == rest[i]);
            } else {
                assert(all[i] == piece[i - rest.len()]);
            }
        }
    }
}

} // verus!
