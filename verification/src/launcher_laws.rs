//! What the launcher promises of what it shows, of its settings and of what it starts.

use vstd::prelude::*;

use crate::commands;
use crate::commands::{ResultDto, UsageTable};
use crate::hotkey;
use crate::key_laws;
use crate::matcher::SearchResult;
use crate::settings;
use crate::settings::SettingsModel;
use crate::text;
use crate::text_laws;

verus! {

/// What a path gains by having been opened so often: 250 each time, up to 1500.
pub open spec fn is_gain(count: Option<u32>, gain: int) -> bool {
    match count {
        Some(n) => if n <= 6 {
            gain == 250 * n
        } else {
            gain == 1500
        },
        None => gain == 0,
    }
}

/// A result is another one with the score that its use gives it.
pub open spec fn is_raised(to: ResultDto, from: ResultDto, usage: UsageTable) -> bool {
    &&& is_gain(usage.count(from.path@), to.score - from.score)
    &&& to.name == from.name
    &&& to.path == from.path
    &&& to.is_dir == from.is_dir
    &&& to.match_start == from.match_start
    &&& to.match_len == from.match_len
}

/// One of some results is a result with the score that its use gives it.
pub open spec fn raises_one(to: ResultDto, items: Seq<ResultDto>, usage: UsageTable) -> bool {
    exists|i: int| #![trigger items[i]] 0 <= i < items.len() && is_raised(to, items[i], usage)
}

/// A result is there with the score that its use gives it.
pub open spec fn is_raised_in(from: ResultDto, out: Seq<ResultDto>, usage: UsageTable) -> bool {
    exists|j: int| #![trigger out[j]] 0 <= j < out.len() && is_raised(out[j], from, usage)
}

/// Whatever the score of a result, use raises it by 250 for each time that its path was opened, up to
/// 1500, and changes nothing else about it.
pub proof fn law_use_raises_any_score(r: ResultDto, usage: UsageTable)
    requires
        r.score + 1500 <= i32::MAX,
    ensures
        is_raised(commands::boosted(r, usage), r, usage),
{
}

/// Results that are ranked by use are those that there were, each raised by its own use, in the order
/// of their scores.
pub proof fn law_ranked_by_use(items: Seq<ResultDto>, usage: UsageTable, out: Seq<ResultDto>)
    requires
        forall|i: int| #![trigger items[i]]
            0 <= i < items.len() ==> items[i].score + 1500 <= i32::MAX,
        commands::by_score(out),
        out.to_multiset() == commands::all_boosted(items, usage).to_multiset(),
    ensures
        out.len() == items.len(),
        forall|a: int, b: int| #![trigger out[a], out[b]]
            0 <= a < b < out.len() ==> out[a].score >= out[b].score,
        forall|i: int| #![trigger items[i]]
            0 <= i < items.len() ==> is_raised_in(items[i], out, usage),
        forall|j: int| #![trigger out[j]]
            0 <= j < out.len() ==> raises_one(out[j], items, usage),
{
    let all = commands::all_boosted(items, usage);
    all.to_multiset_ensures();
    out.to_multiset_ensures();
    assert(all.len() == items.len());
    assert forall|i: int| #![trigger items[i]] 0 <= i < items.len() implies is_raised_in(
        items[i],
        out,
        usage,
    ) by {
        law_use_raises_any_score(items[i], usage);
        assert(all[i] == commands::boosted(items[i], usage));
        assert(all.contains(all[i]));
        assert(out.to_multiset().count(all[i]) > 0);
        assert(out.contains(all[i]));
        let j = choose|j: int| 0 <= j < out.len() && out[j] == all[i];
        assert(is_raised(out[j], items[i], usage));
    }
    assert forall|j: int| #![trigger out[j]] 0 <= j < out.len() implies raises_one(
        out[j],
        items,
        usage,
    ) by {
        assert(out.contains(out[j]));
        assert(all.to_multiset().count(out[j]) > 0);
        assert(all.contains(out[j]));
        let i = choose|i: int| 0 <= i < all.len() && all[i] == out[j];
        law_use_raises_any_score(items[i], usage);
        assert(is_raised(out[j], items[i], usage));
    }
}

/// Of two results with the same score, the one whose path was opened more often is shown before the
/// other, where the other was opened fewer than six times.
pub proof fn law_more_use_comes_first(
    items: Seq<ResultDto>,
    usage: UsageTable,
    out: Seq<ResultDto>,
    much: int,
    little: int,
    a: int,
    b: int,
)
    requires
        forall|i: int| #![trigger items[i]]
            0 <= i < items.len() ==> items[i].score + 1500 <= i32::MAX,
        commands::by_score(out),
        out.to_multiset() == commands::all_boosted(items, usage).to_multiset(),
        0 <= much < items.len(),
        0 <= little < items.len(),
        items[much].score == items[little].score,
        usage.count(items[much].path@) matches Some(more) && more > 0 && (usage.count(
            items[little].path@,
        ) matches Some(fewer) ==> fewer < more && fewer < 6),
        0 <= a < out.len(),
        0 <= b < out.len(),
        out[a] == commands::boosted(items[much], usage),
        out[b] == commands::boosted(items[little], usage),
    ensures
        out[a].score > out[b].score,
        a < b,
{
    law_use_raises_any_score(items[much], usage);
    law_use_raises_any_score(items[little], usage);
    if a > b {
        assert(out[b].score >= out[a].score);
    }
}

/// The count of a path that occurs once is the one that stands with it; a path that does not occur has
/// none.
pub proof fn law_counts_are_looked_up(usage: UsageTable, path: Seq<char>)
    requires
        usage.wf(),
    ensures
        forall|i: int| #![trigger usage.entries@[i]]
            0 <= i < usage.entries@.len() && usage.entries@[i].0@ == path ==> usage.count(path)
                == Some(usage.entries@[i].1),
        (forall|i: int| #![trigger usage.entries@[i]]
            0 <= i < usage.entries@.len() ==> usage.entries@[i].0@ != path) ==> usage.count(path)
            is None,
{
    commands::lemma_counted(usage.entries@, path);
    assert forall|i: int| #![trigger usage.entries@[i]] 0 <= i < usage.entries@.len()
        && usage.entries@[i].0@ == path implies usage.count(path) == Some(usage.entries@[i].1) by {
        commands::lemma_count_of(usage.entries@, i);
    }
}

/// A path begins with a directory in the eyes of the settings exactly if each of its first characters
/// is that of the directory, but for the case of ASCII letters and the kind of separators.
pub proof fn law_excluded_by_its_first_characters(path: Seq<char>, dir: Seq<char>)
    ensures
        settings::begins_with(path, dir) <==> dir.len() <= path.len() && forall|i: int|
            #![trigger dir[i]]
            0 <= i < dir.len() ==> text_laws::same_in_path(path[i], dir[i]),
{
    let head = path.take(dir.len() as int);
    if dir.len() <= path.len() {
        text_laws::law_paths_as_compared(dir, head);
        assert(text::path_key(head) =~= text::path_key(path).take(dir.len() as int));
        assert forall|i: int| 0 <= i < dir.len() implies head[i] == path[i] by {}
        if settings::begins_with(path, dir) {
            assert(text::path_key(dir) =~= text::path_key(path).take(dir.len() as int));
            assert forall|i: int| #![trigger dir[i]] 0 <= i < dir.len() implies
                text_laws::same_in_path(path[i], dir[i]) by {
                assert(text_laws::same_in_path(dir[i], head[i]));
            }
        }
        if forall|i: int| #![trigger dir[i]]
            0 <= i < dir.len() ==> text_laws::same_in_path(path[i], dir[i]) {
            assert forall|i: int| #![trigger dir[i]] 0 <= i < dir.len() implies
                text_laws::same_in_path(dir[i], head[i]) by {
                assert(text_laws::same_in_path(path[i], dir[i]));
            }
            assert(text::path_key(dir).is_prefix_of(text::path_key(path)));
        }
    }
}

/// Of the search results, exactly those whose paths begin with none of the excluded directories are
/// shown, each as it was found.
pub proof fn law_shown_results(
    items: Seq<SearchResult>,
    excluded: Seq<Seq<char>>,
    dtos: Seq<ResultDto>,
)
    requires
        commands::dtos_of(dtos, commands::kept(items, excluded)),
    ensures
        forall|j: int| #![trigger dtos[j]]
            0 <= j < dtos.len() ==> exists|i: int| #![trigger items[i]]
                0 <= i < items.len() && is_shown_as(items[i], dtos[j]) && starts_with_none(
                    items[i].path@,
                    excluded,
                ),
        forall|i: int| #![trigger items[i]]
            0 <= i < items.len() && starts_with_none(items[i].path@, excluded) ==> exists|j: int|
                #![trigger dtos[j]]
                0 <= j < dtos.len() && is_shown_as(items[i], dtos[j]),
{
    let kept = commands::kept(items, excluded);
    assert forall|j: int| #![trigger dtos[j]] 0 <= j < dtos.len() implies exists|i: int|
        #![trigger items[i]]
        0 <= i < items.len() && is_shown_as(items[i], dtos[j]) && starts_with_none(
            items[i].path@,
            excluded,
        ) by {
        commands::lemma_kept(items, excluded);
        assert(items.contains(kept[j]));
        let i = choose|i: int| 0 <= i < items.len() && items[i] == kept[j];
        lemma_excluded_or_not(items[i].path@, excluded);
        assert(is_shown_as(items[i], dtos[j]));
    }
    assert forall|i: int| #![trigger items[i]] 0 <= i < items.len() && starts_with_none(
        items[i].path@,
        excluded,
    ) implies exists|j: int|
        #![trigger dtos[j]]
        0 <= j < dtos.len() && is_shown_as(items[i], dtos[j]) by {
        lemma_excluded_or_not(items[i].path@, excluded);
        let j = lemma_kept_has(items, excluded, i);
        assert(is_shown_as(items[i], dtos[j]));
    }
}

/// A result is shown with its name, its path, its kind, its score and its hit.
pub open spec fn is_shown_as(r: SearchResult, dto: ResultDto) -> bool {
    dto.name@ == r.name@ && dto.path@ == r.path@ && dto.is_dir == r.is_dir && dto.score == r.score
        && dto.match_start == r.match_start && dto.match_len == r.match_len
}

/// A path begins with none of the directories.
pub open spec fn starts_with_none(path: Seq<char>, dirs: Seq<Seq<char>>) -> bool {
    forall|d: int| #![trigger dirs[d]]
        0 <= d < dirs.len() ==> path.len() < dirs[d].len() || exists|i: int|
            #![trigger dirs[d][i]]
            0 <= i < dirs[d].len() && !text_laws::same_in_path(path[i], dirs[d][i])
}

proof fn lemma_excluded_or_not(path: Seq<char>, dirs: Seq<Seq<char>>)
    ensures
        settings::begins_with_any(path, dirs) <==> !starts_with_none(path, dirs),
{
    assert forall|d: int| #![trigger dirs[d]] 0 <= d < dirs.len() implies (settings::begins_with(
        path,
        dirs[d],
    ) <==> !(path.len() < dirs[d].len() || exists|i: int| #![trigger dirs[d][i]]
        0 <= i < dirs[d].len() && !text_laws::same_in_path(path[i], dirs[d][i]))) by {
        law_excluded_by_its_first_characters(path, dirs[d]);
    }
}

proof fn lemma_kept_has(items: Seq<SearchResult>, excluded: Seq<Seq<char>>, i: int) -> (j: int)
    requires
        0 <= i < items.len(),
        !settings::begins_with_any(items[i].path@, excluded),
    ensures
        0 <= j < commands::kept(items, excluded).len(),
        commands::kept(items, excluded)[j] == items[i],
    decreases items.len(),
{
    if i == items.len() - 1 {
        commands::kept(items, excluded).len() - 1
    } else {
        assert(items.drop_last()[i] == items[i]);
        lemma_kept_has(items.drop_last(), excluded, i)
    }
}

/// The results that are shown come in the order in which they were found: one more result at the end
/// is shown at the end, or not at all.
pub proof fn law_shown_in_order(items: Seq<SearchResult>, r: SearchResult, excluded: Seq<Seq<char>>)
    ensures
        commands::kept(items.push(r), excluded) == if starts_with_none(r.path@, excluded) {
            commands::kept(items, excluded).push(r)
        } else {
            commands::kept(items, excluded)
        },
        commands::kept(seq![], excluded).len() == 0,
{
    assert(items.push(r).drop_last() =~= items);
    lemma_excluded_or_not(r.path@, excluded);
}

/// A directory as it is compared begins like the directory itself, ends without a separator, and has
/// lost nothing but separators at its end.
pub proof fn law_dir_as_compared(dir: Seq<char>) -> (n: int)
    ensures
        0 <= n <= dir.len(),
        settings::dir_key(dir) == text::path_key(dir.take(n)),
        forall|k: int| #![trigger dir[k]] n <= k < dir.len() ==> dir[k] == '\\' || dir[k] == '/',
        n > 0 ==> dir[n - 1] != '\\' && dir[n - 1] != '/',
{
    let key = text::path_key(dir);
    let n = text_laws::law_trimmed_of_one_character(key, '\\');
    assert(text::path_key(dir.take(n)) =~= key.take(n));
    assert forall|k: int| #![trigger dir[k]] n <= k < dir.len() implies dir[k] == '\\' || dir[k]
        == '/' by {
        assert(key[k] == '\\');
        text_laws::law_paths_as_compared(dir, dir);
        assert(text_laws::same_in_path(dir[k], key[k]));
    }
    if n > 0 {
        text_laws::law_paths_as_compared(dir, dir);
        assert(key[n - 1] != '\\');
    }
    n
}

/// The directories of a list as they are compared: each in its place, and empty ones left out.
pub proof fn law_dirs_as_compared(dirs: Seq<Seq<char>>, dir: Seq<char>)
    ensures
        settings::dir_keys(seq![]).len() == 0,
        settings::dir_keys(dirs.push(dir)) == if forall|k: int| #![trigger dir[k]]
            0 <= k < dir.len() ==> dir[k] == '\\' || dir[k] == '/' {
            settings::dir_keys(dirs)
        } else {
            settings::dir_keys(dirs).push(settings::dir_key(dir))
        },
{
    assert(dirs.push(dir).drop_last() =~= dirs);
    let n = law_dir_as_compared(dir);
    assert(text::path_key(dir.take(n)).len() == n);
}

/// The mode for Alt and the space bar sets just this hotkey; the mode for an own hotkey sets what the
/// settings hold; any other mode sets none.
pub proof fn law_hotkey_of_the_settings(s: SettingsModel)
    ensures
        s.hotkey_mode == "alt_space"@ ==> settings::has_custom(s.hotkey_mode) && hotkey::hotkey_of(
            settings::custom_text(s),
        ) == Some((2u32, 0x20u32)),
        s.hotkey_mode == "custom"@ ==> settings::has_custom(s.hotkey_mode) && hotkey::hotkey_of(
            settings::custom_text(s),
        ) == hotkey::hotkey_of(s.custom_hotkey),
        s.hotkey_mode != "alt_space"@ && s.hotkey_mode != "custom"@ ==> !settings::has_custom(
            s.hotkey_mode,
        ) && hotkey::hotkey_of(settings::custom_text(s)) is None,
{
    reveal_strlit("alt_space");
    reveal_strlit("custom");
    reveal_strlit("alt+space");
    assert("alt_space"@.len() != "custom"@.len());
    let alt = seq!['a', 'l', 't'];
    let space = seq!['s', 'p', 'a', 'c', 'e'];
    assert("alt+space"@ =~= alt.push('+') + space);
    key_laws::law_hotkey_of_two_words(alt, 2, space, 0x20);
    key_laws::law_hotkey_with_blank_ends(s.custom_hotkey);
    key_laws::law_no_words_no_hotkey();
}

/// The letters of drives are kept in upper case, in their order.
pub proof fn law_letters_in_upper_case(letters: Seq<char>, i: int)
    requires
        0 <= i < letters.len(),
    ensures
        settings::upper_letters(letters).len() == letters.len(),
        key_laws::same_letter(settings::upper_letters(letters)[i], letters[i]),
        !('a' <= settings::upper_letters(letters)[i] <= 'z'),
{
}

/// A volume is shown with its letter, its kind and its size, and as enabled exactly if its letter is
/// not among the disabled ones.
pub proof fn law_volumes_shown(lines: Seq<(char, bool, usize)>, disabled: Seq<char>, i: int)
    requires
        0 <= i < lines.len(),
    ensures
        commands::volume_dtos(lines, disabled).len() == lines.len(),
        ({
            let dto = commands::volume_dtos(lines, disabled)[i];
            &&& dto.letter == lines[i].0
            &&& dto.is_ntfs == lines[i].1
            &&& dto.entries == lines[i].2
            &&& dto.enabled <==> forall|d: int| #![trigger disabled[d]]
                0 <= d < disabled.len() ==> disabled[d] != lines[i].0
        }),
{
    if disabled.contains(lines[i].0) {
        let d = choose|d: int| 0 <= d < disabled.len() && disabled[d] == lines[i].0;
        assert(disabled[d] == lines[i].0);
    }
}

/// In a whole pixel red and blue change places and green stays; alpha stays where any pixel has some,
/// and is full where none has.
pub proof fn law_pixels(pixels: Seq<u8>, p: int)
    requires
        0 <= p,
        4 * p + 4 <= pixels.len(),
    ensures
        ({
            let out = commands::rgba_of(pixels);
            &&& out.len() == pixels.len()
            &&& out[4 * p] == pixels[4 * p + 2]
            &&& out[4 * p + 1] == pixels[4 * p + 1]
            &&& out[4 * p + 2] == pixels[4 * p]
            &&& (exists|i: int| #![trigger pixels[4 * i + 3]]
                0 <= i && 4 * i + 3 < pixels.len() && pixels[4 * i + 3] != 0) ==> out[4 * p + 3]
                == pixels[4 * p + 3]
            &&& (forall|i: int| #![trigger pixels[4 * i + 3]]
                0 <= i && 4 * i + 3 < pixels.len() ==> pixels[4 * i + 3] == 0) ==> out[4 * p + 3] == 255
        }),
{
    if exists|i: int| #![trigger pixels[4 * i + 3]]
        0 <= i && 4 * i + 3 < pixels.len() && pixels[4 * i + 3] != 0 {
        let i = choose|i: int| #![trigger pixels[4 * i + 3]]
            0 <= i && 4 * i + 3 < pixels.len() && pixels[4 * i + 3] != 0;
        assert((4 * i + 3) % 4 == 3);
        assert(commands::has_alpha(pixels));
    }
    if commands::has_alpha(pixels) {
        let k = choose|k: int| #![trigger pixels[k]]
            0 <= k < pixels.len() && k % 4 == 3 && pixels[k] != 0;
        assert(pixels[4 * (k / 4) + 3] != 0);
    }
}

/// Where some pixel has alpha, exchanging red and blue twice gives the pixels back.
pub proof fn law_pixels_twice(pixels: Seq<u8>)
    requires
        exists|i: int| #![trigger pixels[4 * i + 3]]
            0 <= i && 4 * i + 3 < pixels.len() && pixels[4 * i + 3] != 0,
    ensures
        commands::rgba_of(commands::rgba_of(pixels)) == pixels,
{
    let i = choose|i: int| #![trigger pixels[4 * i + 3]]
        0 <= i && 4 * i + 3 < pixels.len() && pixels[4 * i + 3] != 0;
    let out = commands::rgba_of(pixels);
    law_pixels(pixels, i);
    assert((4 * i + 3) % 4 == 3);
    assert(pixels[4 * i + 3] != 0);
    assert(commands::has_alpha(pixels));
    assert(out[4 * i + 3] != 0);
    assert(commands::has_alpha(out));
    assert forall|k: int| 0 <= k < pixels.len() implies commands::rgba_of(out)[k] == pixels[k] by {
        assert(k == 4 * (k / 4) + k % 4);
    }
    assert(commands::rgba_of(out) =~= pixels);
}

/// What was kept under a key that occurs once is found under it, and nothing under one that does not
/// occur.
pub proof fn law_icons_are_looked_up(
    entries: Seq<(String, Option<commands::CachedIcon>)>,
    key: Seq<char>,
)
    ensures
        forall|i: int| #![trigger entries[i]]
            0 <= i < entries.len() && entries[i].0@ == key && (forall|k: int| #![trigger entries[k]]
                i < k < entries.len() ==> entries[k].0@ != key) ==> commands::icon_in(entries, key)
                == Some(entries[i].1),
        (forall|i: int| #![trigger entries[i]] 0 <= i < entries.len() ==> entries[i].0@ != key)
            ==> commands::icon_in(entries, key) is None,
    decreases entries.len(),
{
    if entries.len() > 0 {
        let rest = entries.drop_last();
        law_icons_are_looked_up(rest, key);
        assert forall|i: int| #![trigger entries[i]] 0 <= i < entries.len() && entries[i].0@ == key
            && (forall|k: int| #![trigger entries[k]]
            i < k < entries.len() ==> entries[k].0@ != key) implies commands::icon_in(entries, key)
            == Some(entries[i].1) by {
            if i < entries.len() - 1 {
                assert(entries[entries.len() - 1].0@ != key);
                assert(rest[i] == entries[i]);
                assert forall|k: int| #![trigger rest[k]] i < k < rest.len() implies rest[k].0@
                    != key by {
                    assert(entries[k].0@ != key);
                }
            }
        }
        if forall|i: int| #![trigger entries[i]] 0 <= i < entries.len() ==> entries[i].0@ != key {
            assert(entries[entries.len() - 1].0@ != key);
            assert forall|i: int| #![trigger rest[i]] 0 <= i < rest.len() implies rest[i].0@ != key by {
                assert(entries[i].0@ != key);
            }
        }
    }
}

/// A path is that of an application exactly if it ends in `.exe` or `.lnk`.
pub proof fn law_app_paths(stem: Seq<char>)
    ensures
        commands::is_app_path(stem + seq!['.', 'e', 'x', 'e']),
        commands::is_app_path(stem + seq!['.', 'l', 'n', 'k']),
        commands::is_app_path(stem) ==> stem.len() >= 4 && stem[stem.len() - 4] == '.' && (
        stem.skip(stem.len() - 3) == seq!['e', 'x', 'e'] || stem.skip(stem.len() - 3) == seq!['l', 'n', 'k']
        ),
{
    reveal_strlit(".exe");
    reveal_strlit(".lnk");
    let exe = seq!['.', 'e', 'x', 'e'];
    let lnk = seq!['.', 'l', 'n', 'k'];
    assert(".exe"@ =~= exe);
    assert(".lnk"@ =~= lnk);
    let a = stem + exe;
    let b = stem + lnk;
    assert(a.subrange(a.len() - 4, a.len() as int) =~= exe);
    assert(b.subrange(b.len() - 4, b.len() as int) =~= lnk);
    if commands::is_app_path(stem) {
        let end = stem.subrange(stem.len() - 4, stem.len() as int);
        assert(end[0] == stem[stem.len() - 4]);
        assert(stem.skip(stem.len() - 3) =~= end.skip(1));
        if exe.is_suffix_of(stem) {
            assert(end =~= exe);
            assert(end.skip(1) =~= seq!['e', 'x', 'e']);
        } else {
            assert(end =~= lnk);
            assert(end.skip(1) =~= seq!['l', 'n', 'k']);
        }
    }
}

/// Settings are stored as they are wanted, but for the letters of disabled drives, which are in upper
/// case.
pub proof fn law_settings_are_stored(wanted: SettingsModel)
    ensures
        ({
            let s = settings::stored_settings(wanted);
            &&& s.autostart == wanted.autostart
            &&& s.double_ctrl == wanted.double_ctrl
            &&& s.hotkey_mode == wanted.hotkey_mode
            &&& s.custom_hotkey == wanted.custom_hotkey
            &&& s.theme == wanted.theme
            &&& s.excluded_dirs == wanted.excluded_dirs
            &&& s.disabled_volumes.len() == wanted.disabled_volumes.len()
            &&& forall|i: int| #![trigger s.disabled_volumes[i]]
                0 <= i < s.disabled_volumes.len() ==> key_laws::same_letter(
                    s.disabled_volumes[i],
                    wanted.disabled_volumes[i],
                ) && !('a' <= s.disabled_volumes[i] <= 'z')
        }),
{
}

/// The index is built anew exactly if another drive is disabled, in whatever case its letter is given,
/// or another directory is excluded, as directories are compared.
pub proof fn law_index_is_built_anew(wanted: SettingsModel, current: SettingsModel)
    requires
        forall|i: int| #![trigger current.disabled_volumes[i]]
            0 <= i < current.disabled_volumes.len() ==> !('a' <= current.disabled_volumes[i] <= 'z'),
    ensures
        !settings::needs_rebuild(wanted, current) <==> {
            &&& key_laws::same_letters(wanted.disabled_volumes, current.disabled_volumes)
            &&& settings::dir_keys(wanted.excluded_dirs) == settings::dir_keys(current.excluded_dirs)
        },
{
    let a = settings::upper_letters(wanted.disabled_volumes);
    let b = wanted.disabled_volumes;
    let c = current.disabled_volumes;
    if a == c {
        assert(a.len() == b.len());
        assert forall|i: int| 0 <= i < b.len() implies key_laws::same_letter(b[i], c[i]) by {
            assert(a[i] == c[i]);
        }
    }
    if key_laws::same_letters(b, c) {
        assert forall|i: int| 0 <= i < b.len() implies a[i] == c[i] by {
            assert(key_laws::same_letter(b[i], c[i]));
            assert(!('a' <= c[i] <= 'z'));
        }
        assert(a =~= c);
    }
}

/// A double press of Ctrl counts in its own mode alone, and there only where it is wanted.
pub proof fn law_double_press_in_its_mode(s: SettingsModel)
    ensures
        s.hotkey_mode == "double_ctrl"@ ==> settings::counts_double(s) == s.double_ctrl,
        s.hotkey_mode != "double_ctrl"@ ==> !settings::counts_double(s),
{
}

/// Each use counts one, the first one too.
pub proof fn law_each_use_counts(n: u32)
    ensures
        UsageTable::one_more(None) == Some(1u32),
        n < u32::MAX ==> (UsageTable::one_more(Some(n)) matches Some(k) && k == n + 1),
{
}

/// Up to 2048 icons are kept; more are all dropped at once.
pub proof fn law_icons_are_dropped(entries: Seq<(String, Option<commands::CachedIcon>)>)
    ensures
        entries.len() <= 2048 ==> commands::IconCache::still_kept(entries) == entries,
        entries.len() > 2048 ==> commands::IconCache::still_kept(entries).len() == 0,
{
}

/// A file has its own icon exactly if its path ends in `.exe` or `.lnk`, in letters of either case. Its
/// icon is kept under its path, in which case does not count; that of any other file under its kind.
pub proof fn law_icon_keys(key: Seq<char>, path: Seq<char>, other: Seq<char>)
    ensures
        commands::has_own_icon(path) <==> path.len() >= 4 && (key_laws::same_letters(
            path.skip(path.len() - 4),
            seq!['.', 'e', 'x', 'e'],
        ) || key_laws::same_letters(path.skip(path.len() - 4), seq!['.', 'l', 'n', 'k'])),
        !commands::has_own_icon(path) ==> commands::icon_key(key, path) == key,
        commands::has_own_icon(path) ==> (commands::icon_key(key, path) == commands::icon_key(key, other)
            && commands::has_own_icon(other) <==> key_laws::same_letters(path, other)
            && commands::has_own_icon(other)),
{
    lemma_own_icon(path);
    text_laws::law_texts_in_lower_case(path, other);
    let x = "p:"@ + text::ascii_lower(path);
    let y = "p:"@ + text::ascii_lower(other);
    if x == y {
        let n = "p:"@.len() as int;
        assert(x.skip(n) =~= text::ascii_lower(path));
        assert(y.skip(n) =~= text::ascii_lower(other));
    }
}

proof fn lemma_own_icon(path: Seq<char>)
    ensures
        commands::has_own_icon(path) <==> path.len() >= 4 && (key_laws::same_letters(
            path.skip(path.len() - 4),
            seq!['.', 'e', 'x', 'e'],
        ) || key_laws::same_letters(path.skip(path.len() - 4), seq!['.', 'l', 'n', 'k'])),
{
    reveal_strlit(".exe");
    reveal_strlit(".lnk");
    let exe = seq!['.', 'e', 'x', 'e'];
    let lnk = seq!['.', 'l', 'n', 'k'];
    assert(".exe"@ =~= exe);
    assert(".lnk"@ =~= lnk);
    let lower = text::ascii_lower(path);
    if path.len() >= 4 {
        let end = path.skip(path.len() - 4);
        assert(lower.subrange(lower.len() - 4, lower.len() as int) =~= text::ascii_lower(end));
        text_laws::law_texts_in_lower_case(end, exe);
        text_laws::law_texts_in_lower_case(end, lnk);
        assert(text::ascii_lower(exe) =~= exe);
        assert(text::ascii_lower(lnk) =~= lnk);
    }
}

/// The icon of directories is asked for as that of a directory, bit 4 of the attributes, and that of a
/// kind of file as that of an ordinary file, bit 7, whose name ends in this kind, in lower case.
pub proof fn law_icon_probes(key: Seq<char>)
    ensures
        commands::probe_of("dir"@).1 == 0x10,
        key != "dir"@ ==> {
            let (path, attributes) = commands::probe_of(key);
            &&& attributes == 0x80
            &&& path.len() >= key.len()
            &&& key_laws::same_letters(path.skip(path.len() - key.len()), key)
            &&& forall|i: int| #![trigger path[i]]
                path.len() - key.len() <= i < path.len() ==> !('A' <= path[i] <= 'Z')
        },
{
    if key != "dir"@ {
        let path = commands::probe_of(key).0;
        let lower = text::ascii_lower(key);
        text_laws::law_texts_in_lower_case(key, key);
        assert(path.skip(path.len() - key.len()) =~= lower);
        assert forall|i: int| 0 <= i < key.len() implies key_laws::same_letter(lower[i], key[i]) by {
            assert(key_laws::same_letter(key[i], lower[i]));
        }
        assert forall|i: int| #![trigger path[i]] path.len() - key.len() <= i < path.len() implies !('A'
            <= path[i] <= 'Z') by {
            assert(path[i] == lower[i - (path.len() - key.len())]);
        }
    }
}

/// Colours are light exactly where the value is 1, and unknown where there is none.
pub proof fn law_light_colours(value: u32)
    ensures
        settings::light_of(Some(value)) == Some(value == 1),
        settings::light_of(None) is None,
{
}

} // verus!
