//! The settings: their defaults, what they mean for the hotkeys, which paths they exclude, and what
//! has to be done when they change.

use vstd::prelude::*;

use crate::engine;
use crate::text;
use crate::text::{chars_of, chars_start_with, copy_str, str_eq, string_of, to_path_key, to_upper_char, trim, trim_end_of};

verus! {

#[derive(Debug)]
pub struct AppSettings {
    /// Start with the system.
    pub autostart: bool,
    /// Two presses of Ctrl call the popup; counts only where the mode is `double_ctrl`.
    pub double_ctrl: bool,
    /// How the popup is called: `double_ctrl`, `alt_space` or `custom`.
    pub hotkey_mode: String,
    /// The own hotkey, such as `alt+space` or `ctrl+alt+l`.
    pub custom_hotkey: String,
    /// `auto`, `dark` or `light`.
    pub theme: String,
    /// The drives that are not indexed.
    pub disabled_volumes: Vec<char>,
    /// The directories that are left out, as absolute paths, letters of either case.
    pub excluded_dirs: Vec<String>,
}

/// The contents of settings.
#[verifier::ext_equal]
pub struct SettingsModel {
    pub autostart: bool,
    pub double_ctrl: bool,
    pub hotkey_mode: Seq<char>,
    pub custom_hotkey: Seq<char>,
    pub theme: Seq<char>,
    pub disabled_volumes: Seq<char>,
    pub excluded_dirs: Seq<Seq<char>>,
}

impl View for AppSettings {
    type V = SettingsModel;

    open spec fn view(&self) -> SettingsModel {
        SettingsModel {
            autostart: self.autostart,
            double_ctrl: self.double_ctrl,
            hotkey_mode: self.hotkey_mode@,
            custom_hotkey: self.custom_hotkey@,
            theme: self.theme@,
            disabled_volumes: self.disabled_volumes@,
            excluded_dirs: text::texts(self.excluded_dirs@),
        }
    }
}

impl Clone for AppSettings {
    fn clone(&self) -> (r: AppSettings)
        ensures
            r@ == self@,
    {
        let r = AppSettings {
            autostart: self.autostart,
            double_ctrl: self.double_ctrl,
            hotkey_mode: copy_str(self.hotkey_mode.as_str()),
            custom_hotkey: copy_str(self.custom_hotkey.as_str()),
            theme: copy_str(self.theme.as_str()),
            disabled_volumes: crate::engine::copy_letters(self.disabled_volumes.as_slice()),
            excluded_dirs: copy_texts(self.excluded_dirs.as_slice()),
        };
        assert(r@ =~= self@);
        r
    }
}

/// A copy of a list of texts.
pub fn copy_texts(list: &[String]) -> (r: Vec<String>)
    ensures
        text::texts(r@) == text::texts(list@),
{
    let mut out: Vec<String> = Vec::new();
    assert(text::texts(out@) =~= text::texts(list@).take(0));
    for i in 0..list.len()
        invariant
            text::texts(out@) == text::texts(list@).take(i as int),
    {
        let ghost had = text::texts(out@);
        out.push(copy_str(list[i].as_str()));
        assert(text::texts(out@) =~= had.push(list@[i as int]@));
        assert(text::texts(out@) =~= text::texts(list@).take(i + 1));
    }
    assert(text::texts(list@).take(list@.len() as int) =~= text::texts(list@));
    out
}

pub fn default_true() -> (r: bool)
    ensures
        r,
{
    true
}

pub fn default_hotkey_mode() -> (r: String)
    ensures
        r@ == "double_ctrl"@,
{
    copy_str("double_ctrl")
}

pub fn default_custom_hotkey() -> (r: String)
    ensures
        r@ == "alt+space"@,
{
    copy_str("alt+space")
}

impl Default for AppSettings {
    fn default() -> (r: AppSettings)
        ensures
            r@ == (SettingsModel {
                autostart: false,
                double_ctrl: true,
                hotkey_mode: "double_ctrl"@,
                custom_hotkey: "alt+space"@,
                theme: "auto"@,
                disabled_volumes: seq![],
                excluded_dirs: seq![],
            }),
    {
        let r = AppSettings {
            autostart: false,
            double_ctrl: default_true(),
            hotkey_mode: default_hotkey_mode(),
            custom_hotkey: default_custom_hotkey(),
            theme: copy_str("auto"),
            disabled_volumes: Vec::new(),
            excluded_dirs: Vec::new(),
        };
        assert(r@.excluded_dirs =~= seq![]);
        r
    }
}

/// Whether the value under which the program is registered for the start of the system says so.
pub fn autostart_enabled(value: Option<&str>) -> (r: bool)
    ensures
        r == (value matches Some(v) && v@.len() > 0),
{
    match value {
        Some(v) => chars_of(v).len() > 0,
        None => false,
    }
}

/// Whether a value of `AppsUseLightTheme` means light colours.
pub open spec fn light_of(value: Option<u32>) -> Option<bool> {
    match value {
        Some(v) => Some(v == 1),
        None => None,
    }
}

/// Whether programs are shown in light colours, by the value of `AppsUseLightTheme`.
pub fn apps_use_light_theme(value: Option<u32>) -> (r: Option<bool>)
    ensures
        r == light_of(value),
{
    match value {
        Some(v) => Some(v == 1),
        None => None,
    }
}

/// The name of the system's theme: `dark` only where it is known not to be light.
pub fn windows_theme(light: Option<bool>) -> (r: &'static str)
    ensures
        r@ == if light == Some(false) {
            "dark"@
        } else {
            "light"@
        },
{
    match light {
        Some(false) => "dark",
        _ => "light",
    }
}

/// Whether a path begins with an excluded directory; letters of either case, `/` and `\` alike.
pub open spec fn begins_with(path: Seq<char>, dir: Seq<char>) -> bool {
    text::path_key(dir).is_prefix_of(text::path_key(path))
}

/// Whether a path begins with one of the excluded directories.
pub open spec fn begins_with_any(path: Seq<char>, dirs: Seq<Seq<char>>) -> bool {
    exists|i: int| #![trigger dirs[i]] 0 <= i < dirs.len() && begins_with(path, dirs[i])
}

/// Whether a path is excluded.
pub fn is_excluded(path: &str, excluded: &[String]) -> (r: bool)
    ensures
        r == begins_with_any(path@, text::texts(excluded@)),
{
    let ghost dirs = text::texts(excluded@);
    let key = to_path_key(path);
    for i in 0..excluded.len()
        invariant
            dirs == text::texts(excluded@),
            key@ == text::path_key(path@),
            forall|j: int| #![trigger dirs[j]] 0 <= j < i ==> !begins_with(path@, dirs[j]),
    {
        let dir = to_path_key(excluded[i].as_str());
        assert(dirs[i as int] == excluded@[i as int]@);
        if chars_start_with(key.as_slice(), dir.as_slice()) {
            return true;
        }
    }
    false
}

/// A directory in the form in which it is compared: in lower case, with `\` as separator and none
/// at the end.
pub open spec fn dir_key(dir: Seq<char>) -> Seq<char> {
    text::trim_end_char(text::path_key(dir), '\\')
}

/// The directories of a list in the form in which they are compared, without empty ones.
pub open spec fn dir_keys(dirs: Seq<Seq<char>>) -> Seq<Seq<char>>
    decreases dirs.len(),
{
    if dirs.len() == 0 {
        seq![]
    } else {
        let rest = dir_keys(dirs.drop_last());
        if dir_key(dirs.last()).len() > 0 {
            rest.push(dir_key(dirs.last()))
        } else {
            rest
        }
    }
}

/// Brings excluded directories into the form in which they are compared.
pub fn normalize_excluded(dirs: &[String]) -> (r: Vec<String>)
    ensures
        text::texts(r@) == dir_keys(text::texts(dirs@)),
{
    let ghost all = text::texts(dirs@);
    let mut out: Vec<String> = Vec::new();
    assert(text::texts(out@) =~= seq![]);
    assert(all.take(0) =~= seq![]);
    for i in 0..dirs.len()
        invariant
            all == text::texts(dirs@),
            text::texts(out@) == dir_keys(all.take(i as int)),
    {
        assert(all.take(i + 1).drop_last() =~= all.take(i as int));
        assert(all.take(i + 1).last() == dirs@[i as int]@);
        let path = to_path_key(dirs[i].as_str());
        let key = trim_end_of(path.as_slice(), '\\');
        if key.len() > 0 {
            let ghost had = text::texts(out@);
            out.push(string_of(key));
            assert(text::texts(out@) =~= had.push(key@));
        }
    }
    assert(all.take(all.len() as int) =~= all);
    out
}

/// What settings mean for the hotkeys: whether a double press of Ctrl counts, whether there is an
/// own hotkey, and which.
pub struct HotkeyPlan {
    pub double_ctrl: bool,
    pub custom: bool,
    pub custom_text: String,
}

/// Whether the mode is one with an own hotkey.
pub open spec fn has_custom(mode: Seq<char>) -> bool {
    mode == "alt_space"@ || mode == "custom"@
}

/// The hotkey of a mode.
pub open spec fn custom_text(s: SettingsModel) -> Seq<char> {
    if s.hotkey_mode == "alt_space"@ {
        "alt+space"@
    } else if s.hotkey_mode == "custom"@ {
        text::trimmed(s.custom_hotkey)
    } else {
        seq![]
    }
}

/// Whether a double press of Ctrl counts.
pub open spec fn counts_double(s: SettingsModel) -> bool {
    s.hotkey_mode == "double_ctrl"@ && s.double_ctrl
}

/// Tells what settings mean for the hotkeys.
pub fn hotkey_plan(s: &AppSettings) -> (r: HotkeyPlan)
    ensures
        r.double_ctrl == counts_double(s@),
        r.custom == has_custom(s@.hotkey_mode),
        r.custom_text@ == custom_text(s@),
{
    let mode = s.hotkey_mode.as_str();
    let double_ctrl = str_eq(mode, "double_ctrl") && s.double_ctrl;
    if str_eq(mode, "alt_space") {
        HotkeyPlan { double_ctrl, custom: true, custom_text: copy_str("alt+space") }
    } else if str_eq(mode, "custom") {
        let chars = chars_of(s.custom_hotkey.as_str());
        HotkeyPlan { double_ctrl, custom: true, custom_text: string_of(trim(chars.as_slice())) }
    } else {
        HotkeyPlan { double_ctrl, custom: false, custom_text: String::new() }
    }
}

/// With an own hotkey, a double press of Ctrl does not count.
pub proof fn law_one_hotkey_at_a_time(mode: Seq<char>)
    ensures
        !(has_custom(mode) && mode == "double_ctrl"@),
{
    reveal_strlit("alt_space");
    reveal_strlit("custom");
    reveal_strlit("double_ctrl");
    assert("alt_space"@.len() != "double_ctrl"@.len());
    assert("custom"@.len() != "double_ctrl"@.len());
}

/// What has to be done when settings change.
pub struct SettingsPlan {
    /// The settings to be stored.
    pub settings: AppSettings,
    /// The excluded directories in the form in which they are compared.
    pub excluded: Vec<String>,
    /// Whether the registration for the start of the system changes.
    pub autostart_changes: bool,
    pub hotkeys: HotkeyPlan,
    /// Whether the index has to be built anew.
    pub rebuild: bool,
}

/// Letters in upper case.
pub open spec fn upper_letters(letters: Seq<char>) -> Seq<char> {
    letters.map_values(|c: char| text::upper_char(c))
}

fn to_upper_letters(letters: &[char]) -> (r: Vec<char>)
    ensures
        r@ == upper_letters(letters@),
{
    let mut out: Vec<char> = Vec::new();
    for i in 0..letters.len()
        invariant
            out@ == upper_letters(letters@.take(i as int)),
    {
        out.push(to_upper_char(letters[i]));
        assert(out@ =~= upper_letters(letters@.take(i + 1)));
    }
    assert(letters@.take(letters@.len() as int) =~= letters@);
    out
}

fn texts_eq(a: &[String], b: &[String]) -> (r: bool)
    ensures
        r == (text::texts(a@) == text::texts(b@)),
{
    if a.len() != b.len() {
        assert(text::texts(a@).len() != text::texts(b@).len());
        return false;
    }
    for i in 0..a.len()
        invariant
            a@.len() == b@.len(),
            forall|j: int| 0 <= j < i ==> #[trigger] text::texts(a@)[j] == text::texts(b@)[j],
    {
        if !str_eq(a[i].as_str(), b[i].as_str()) {
            assert(text::texts(a@)[i as int] != text::texts(b@)[i as int]);
            return false;
        }
    }
    assert(text::texts(a@) =~= text::texts(b@));
    true
}

/// Settings as they are stored: with the letters of disabled drives in upper case.
pub open spec fn stored_settings(wanted: SettingsModel) -> SettingsModel {
    SettingsModel { disabled_volumes: upper_letters(wanted.disabled_volumes), ..wanted }
}

/// Whether the index has to be built anew for a change of settings.
pub open spec fn needs_rebuild(wanted: SettingsModel, current: SettingsModel) -> bool {
    upper_letters(wanted.disabled_volumes) != current.disabled_volumes || dir_keys(
        wanted.excluded_dirs,
    ) != dir_keys(current.excluded_dirs)
}

/// Plans a change of settings. The letters of disabled drives are brought into upper case; the
/// index is built anew only where the drives or the excluded directories really change.
pub fn plan_change(wanted: &AppSettings, current: &AppSettings) -> (r: SettingsPlan)
    ensures
        r.settings@ == stored_settings(wanted@),
        text::texts(r.excluded@) == dir_keys(wanted@.excluded_dirs),
        r.autostart_changes == (wanted.autostart != current.autostart),
        r.hotkeys.double_ctrl == counts_double(wanted@),
        r.hotkeys.custom == has_custom(wanted@.hotkey_mode),
        r.hotkeys.custom_text@ == custom_text(wanted@),
        r.rebuild == needs_rebuild(wanted@, current@),
{
    let excluded = normalize_excluded(wanted.excluded_dirs.as_slice());
    let before = normalize_excluded(current.excluded_dirs.as_slice());
    let mut settings = wanted.clone();
    settings.disabled_volumes = to_upper_letters(wanted.disabled_volumes.as_slice());
    let same_drives = text::chars_eq(
        settings.disabled_volumes.as_slice(),
        current.disabled_volumes.as_slice(),
    );
    let same_dirs = texts_eq(excluded.as_slice(), before.as_slice());
    assert(settings@ =~= (SettingsModel {
        disabled_volumes: upper_letters(wanted@.disabled_volumes),
        ..wanted@
    }));
    SettingsPlan {
        settings,
        excluded,
        autostart_changes: wanted.autostart != current.autostart,
        hotkeys: hotkey_plan(wanted),
        rebuild: !same_drives || !same_dirs,
    }
}

/// Directories that were brought into the form in which they are compared stay as they are.
pub proof fn law_dir_key_is_stable(dir: Seq<char>)
    ensures
        dir_key(dir_key(dir)) == dir_key(dir),
{
    let key = dir_key(dir);
    lemma_trim_prefix(text::path_key(dir), '\\');
    assert(text::path_key(key) =~= key) by {
        assert forall|i: int| 0 <= i < key.len() implies text::path_key(key)[i] == key[i] by {
            let c = text::path_key(dir)[i];
            assert(key[i] == c);
            assert(text::lower_char(text::lower_char(dir[i])) == text::lower_char(dir[i]));
        }
    }
    lemma_trim_stable(text::path_key(dir), '\\');
}

/// Directories in the form in which they are compared are not empty and have no separator at their
/// end.
pub proof fn law_dir_keys_are_bare(dirs: Seq<Seq<char>>)
    ensures
        engine::all_bare(dir_keys(dirs)),
    decreases dirs.len(),
{
    if dirs.len() > 0 {
        let rest = dir_keys(dirs.drop_last());
        let all = dir_keys(dirs);
        law_dir_keys_are_bare(dirs.drop_last());
        lemma_trimmed_end(text::path_key(dirs.last()), '\\');
        assert forall|i: int| #![trigger all[i]] 0 <= i < all.len() implies engine::is_bare(
            all[i],
        ) by {
            if i < rest.len() {
                assert(all[i] == rest[i]);
            }
        }
    }
}

proof fn lemma_trimmed_end(s: Seq<char>, c: char)
    ensures
        text::trim_end_char(s, c).len() > 0 ==> text::trim_end_char(s, c).last() != c,
    decreases s.len(),
{
    if s.len() > 0 && s.last() == c {
        lemma_trimmed_end(s.drop_last(), c);
    }
}

proof fn lemma_trim_prefix(s: Seq<char>, c: char)
    ensures
        text::trim_end_char(s, c).len() <= s.len(),
        text::trim_end_char(s, c) == s.take(text::trim_end_char(s, c).len() as int),
    decreases s.len(),
{
    if s.len() > 0 && s.last() == c {
        lemma_trim_prefix(s.drop_last(), c);
        let n = text::trim_end_char(s, c).len() as int;
        assert(s.drop_last().take(n) =~= s.take(n));
    } else {
        assert(s.take(s.len() as int) =~= s);
    }
}

proof fn lemma_trim_stable(s: Seq<char>, c: char)
    ensures
        text::trim_end_char(text::trim_end_char(s, c), c) == text::trim_end_char(s, c),
    decreases s.len(),
{
    if s.len() > 0 && s.last() == c {
        lemma_trim_stable(s.drop_last(), c);
    }
}

} // verus!
