use searchcore::py::{has_cjk, pinyin_of, spell_with};

fn units(s: &str) -> Vec<u16> {
    s.encode_utf16().collect()
}

#[test]
fn spelling_of_a_mixed_name() {
    assert_eq!(pinyin_of(&units("微信.png")), Some(units("weixin.png")));
    assert_eq!(pinyin_of(&units("原神")), Some(units("yuanshen")));
}

#[test]
fn names_without_chinese_characters_have_no_spelling() {
    assert_eq!(pinyin_of(&units("readme.txt")), None);
    assert_eq!(pinyin_of(&units("カナ")), None);
    assert!(has_cjk("a中"));
    assert!(!has_cjk("abc"));
}

#[test]
fn readings_replace_their_characters() {
    assert_eq!(spell_with("A中b", &[None, Some("zhong"), None]), Some(units("azhongb")));
    assert_eq!(spell_with("ab", &[None, None]), None);
}

#[test]
fn spellings_are_in_lower_case_and_bounded() {
    let long = pinyin_of(&units(&"双".repeat(255))).unwrap();
    assert_eq!(long, units(&"shuang".repeat(255)));
    assert_eq!(pinyin_of(&units("女ABC")), Some(units("n\u{fc}abc")));
    assert_eq!(pinyin_of(&units("饿")), Some(units("e")));
}
