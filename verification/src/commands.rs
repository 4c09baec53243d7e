//! What the user interface asks for: search results ranked by use, settings and volumes, and icons.

use vstd::prelude::*;

pub use crate::settings::normalize_excluded;

use crate::engine::{copy_letters, EngineStats};
use crate::matcher::SearchResult;
use crate::settings;
use crate::settings::{copy_texts, is_excluded, AppSettings};
use crate::text;
use crate::text::{chars_contain, chars_of, concat, copy_str, str_eq, to_ascii_lowercase};

verus! {

/// How much one use adds to a score.
pub const BOOST_PER_USE: i32 = 250;

/// How much use adds to a score at most.
pub const BOOST_LIMIT: i32 = 1500;

/// How many icons are kept before they are all dropped.
pub const ICON_CACHE_LIMIT: usize = 2048;

/// An icon, with its pixels in rows from the top, red, green, blue and alpha each.
pub struct CachedIcon {
    pub w: i32,
    pub h: i32,
    pub rgba: Vec<u8>,
}

/// A search result as the user interface shows it.
pub struct ResultDto {
    pub name: String,
    pub path: String,
    pub is_dir: bool,
    pub score: i32,
    pub match_start: u16,
    pub match_len: u16,
}

/// An icon as the user interface shows it.
pub struct IconDto {
    pub w: i32,
    pub h: i32,
    pub rgba: Vec<u8>,
}

/// The settings as the user interface edits them.
#[derive(Debug)]
pub struct SettingsDto {
    pub autostart: bool,
    pub double_ctrl: bool,
    pub hotkey_mode: String,
    pub custom_hotkey: String,
    pub theme: String,
    pub disabled_volumes: Vec<char>,
    pub excluded_dirs: Vec<String>,
}

/// A volume as the user interface shows it.
#[derive(Clone, Copy, Debug, PartialEq, Eq, Structural)]
pub struct VolumeDto {
    pub letter: char,
    pub is_ntfs: bool,
    pub entries: usize,
    pub enabled: bool,
}

/// What the settings page shows.
pub struct SettingsPayload {
    pub settings: SettingsDto,
    /// The program is registered for the start of the system.
    pub autostart_registered: bool,
    pub volumes: Vec<VolumeDto>,
}

/// What is reported when the index is ready.
pub struct IndexReadyPayload {
    pub entries: usize,
    pub startup_ms: u128,
    pub from_snapshot: bool,
    pub is_admin: bool,
    pub usn_live: Vec<char>,
}

impl Clone for ResultDto {
    fn clone(&self) -> (r: ResultDto)
        ensures
            r.name@ == self.name@,
            r.path@ == self.path@,
            r.is_dir == self.is_dir,
            r.score == self.score,
            r.match_start == self.match_start,
            r.match_len == self.match_len,
    {
        ResultDto {
            name: copy_str(self.name.as_str()),
            path: copy_str(self.path.as_str()),
            is_dir: self.is_dir,
            score: self.score,
            match_start: self.match_start,
            match_len: self.match_len,
        }
    }
}

impl Clone for IconDto {
    fn clone(&self) -> (r: IconDto)
        ensures
            r.w == self.w,
            r.h == self.h,
            r.rgba@ == self.rgba@,
    {
        IconDto { w: self.w, h: self.h, rgba: copy_bytes(self.rgba.as_slice()) }
    }
}

impl Clone for IndexReadyPayload {
    fn clone(&self) -> (r: IndexReadyPayload)
        ensures
            r.entries == self.entries,
            r.startup_ms == self.startup_ms,
            r.from_snapshot == self.from_snapshot,
            r.is_admin == self.is_admin,
            r.usn_live@ == self.usn_live@,
    {
        IndexReadyPayload {
            entries: self.entries,
            startup_ms: self.startup_ms,
            from_snapshot: self.from_snapshot,
            is_admin: self.is_admin,
            usn_live: copy_letters(self.usn_live.as_slice()),
        }
    }
}

impl IndexReadyPayload {
    pub fn from_stats(s: &EngineStats) -> (r: IndexReadyPayload)
        ensures
            r.entries == s.entries,
            r.startup_ms == s.startup_ms,
            r.from_snapshot == s.from_snapshot,
            r.is_admin == s.is_admin,
            r.usn_live@ == s.usn_live@,
    {
        IndexReadyPayload {
            entries: s.entries,
            startup_ms: s.startup_ms,
            from_snapshot: s.from_snapshot,
            is_admin: s.is_admin,
            usn_live: copy_letters(s.usn_live.as_slice()),
        }
    }
}

impl View for SettingsDto {
    type V = settings::SettingsModel;

    open spec fn view(&self) -> settings::SettingsModel {
        settings::SettingsModel {
            autostart: self.autostart,
            double_ctrl: self.double_ctrl,
            hotkey_mode: self.hotkey_mode@,
            custom_hotkey: self.custom_hotkey@,
            theme: self.theme@,
            disabled_volumes: self.disabled_volumes@,
            excluded_dirs: text::texts(self.excluded_dirs@),
        }
    }
}

impl Clone for SettingsDto {
    fn clone(&self) -> (r: SettingsDto)
        ensures
            r@ == self@,
    {
        SettingsDto {
            autostart: self.autostart,
            double_ctrl: self.double_ctrl,
            hotkey_mode: copy_str(self.hotkey_mode.as_str()),
            custom_hotkey: copy_str(self.custom_hotkey.as_str()),
            theme: copy_str(self.theme.as_str()),
            disabled_volumes: copy_letters(self.disabled_volumes.as_slice()),
            excluded_dirs: copy_texts(self.excluded_dirs.as_slice()),
        }
    }
}

impl SettingsDto {
    pub fn from_settings(s: AppSettings) -> (r: SettingsDto)
        ensures
            r@ == s@,
    {
        SettingsDto {
            autostart: s.autostart,
            double_ctrl: s.double_ctrl,
            hotkey_mode: s.hotkey_mode,
            custom_hotkey: s.custom_hotkey,
            theme: s.theme,
            disabled_volumes: s.disabled_volumes,
            excluded_dirs: s.excluded_dirs,
        }
    }

    pub fn into_settings(self) -> (r: AppSettings)
        ensures
            r@ == self@,
    {
        AppSettings {
            autostart: self.autostart,
            double_ctrl: self.double_ctrl,
            hotkey_mode: self.hotkey_mode,
            custom_hotkey: self.custom_hotkey,
            theme: self.theme,
            disabled_volumes: self.disabled_volumes,
            excluded_dirs: self.excluded_dirs,
        }
    }
}

/// A volume as it is shown: with its kind, its size and whether it is indexed.
pub open spec fn volume_dto(line: (char, bool, usize), disabled: Seq<char>) -> VolumeDto {
    VolumeDto {
        letter: line.0,
        is_ntfs: line.1,
        entries: line.2,
        enabled: !disabled.contains(line.0),
    }
}

/// The volumes as they are shown.
pub open spec fn volume_dtos(lines: Seq<(char, bool, usize)>, disabled: Seq<char>) -> Seq<
    VolumeDto,
> {
    Seq::new(lines.len(), |i: int| volume_dto(lines[i], disabled))
}

/// What the settings page shows.
pub fn settings_payload(
    s: AppSettings,
    stats: &EngineStats,
    autostart_registered: bool,
) -> (r: SettingsPayload)
    ensures
        r.settings@ == s@,
        r.autostart_registered == autostart_registered,
        r.volumes@ == volume_dtos(stats.volumes@, s@.disabled_volumes),
{
    let mut volumes: Vec<VolumeDto> = Vec::new();
    let ghost disabled = s@.disabled_volumes;
    let ghost all = volume_dtos(stats.volumes@, disabled);
    for i in 0..stats.volumes.len()
        invariant
            disabled == s.disabled_volumes@,
            all == volume_dtos(stats.volumes@, disabled),
            volumes@ == all.take(i as int),
    {
        let (letter, is_ntfs, entries) = stats.volumes[i];
        let enabled = !chars_contain(s.disabled_volumes.as_slice(), letter);
        let ghost had = volumes@;
        let dto = VolumeDto { letter, is_ntfs, entries, enabled };
        assert(stats.volumes@[i as int] == (letter, is_ntfs, entries));
        assert(dto == volume_dto(stats.volumes@[i as int], disabled));
        assert(all[i as int] == dto);
        volumes.push(dto);
        assert(volumes@ =~= had.push(dto));
        assert(all.take(i + 1) =~= all.take(i as int).push(dto));
    }
    assert(all.take(all.len() as int) =~= all);
    SettingsPayload { settings: SettingsDto::from_settings(s), autostart_registered, volumes }
}

/// How often paths were opened. No path occurs twice.
pub struct UsageTable {
    pub entries: Vec<(String, u32)>,
}

/// The count of a path in a table, if it has one.
pub open spec fn count_in(entries: Seq<(String, u32)>, path: Seq<char>) -> Option<u32>
    decreases entries.len(),
{
    if entries.len() == 0 {
        None
    } else if entries.last().0@ == path {
        Some(entries.last().1)
    } else {
        count_in(entries.drop_last(), path)
    }
}

/// No path occurs twice.
pub open spec fn no_path_twice(entries: Seq<(String, u32)>) -> bool {
    forall|i: int, j: int| #![trigger entries[i], entries[j]]
        0 <= i < j < entries.len() ==> entries[i].0@ != entries[j].0@
}

/// The pairs list a map: each of its keys once, with its value, and nothing else.
pub open spec fn lists(pairs: Seq<(String, u32)>, m: Map<Seq<char>, u32>) -> bool {
    &&& no_path_twice(pairs)
    &&& forall|i: int| #![trigger pairs[i]]
        0 <= i < pairs.len() ==> m.contains_key(pairs[i].0@) && m[pairs[i].0@] == pairs[i].1
    &&& forall|p: Seq<char>| #[trigger]
        m.contains_key(p) ==> exists|i: int| #![trigger pairs[i]]
            0 <= i < pairs.len() && pairs[i].0@ == p
}

/// The counts of paths that `serde_json::from_str` reads from a text, if it is a JSON object of
/// counts.
pub uninterp spec fn usage_counts(s: Seq<char>) -> Option<Map<Seq<char>, u32>>;

/// The counts that are read from a text are those of a list.
pub open spec fn stands_for(s: Seq<char>, pairs: Seq<(String, u32)>) -> bool {
    match usage_counts(s) {
        Some(m) => lists(pairs, m),
        None => false,
    }
}

/// `serde_json::from_str` into a map from strings to `u32`: which map it is, if any, depends on the
/// text alone, and is named [`usage_counts`]. The pairs list it, in no stated order.
#[verifier::external_body]
fn read_counts(s: &str) -> (r: Option<Vec<(String, u32)>>)
    ensures
        match r {
            Some(pairs) => stands_for(s@, pairs@),
            None => usage_counts(s@) is None,
        },
{
    serde_json::from_str::<std::collections::BTreeMap<String, u32>>(s)
        .ok()
        .map(|m| m.into_iter().collect())
}

/// `serde_json::to_string` on a map from strings to `u32`: it does not fail, since keys are strings
/// and the text is put together in memory; and `serde_json::from_str` reads the same map back from
/// the text. Nothing more is stated of the text.
#[verifier::external_body]
fn write_counts(counts: &[(String, u32)]) -> (r: Option<String>)
    requires
        no_path_twice(counts@),
    ensures
        r is Some,
        stands_for(r->0@, counts@),
{
    let m: std::collections::BTreeMap<&str, u32> =
        counts.iter().map(|c| (c.0.as_str(), c.1)).collect();
    serde_json::to_string(&m).ok()
}

pub proof fn lemma_count_of(entries: Seq<(String, u32)>, i: int)
    requires
        no_path_twice(entries),
        0 <= i < entries.len(),
    ensures
        count_in(entries, entries[i].0@) == Some(entries[i].1),
    decreases entries.len(),
{
    if i < entries.len() - 1 {
        let rest = entries.drop_last();
        assert(rest[i] == entries[i]);
        assert(entries[i].0@ != entries[entries.len() - 1].0@);
        assert forall|a: int, b: int| #![trigger rest[a], rest[b]] 0 <= a < b < rest.len() implies
            rest[a].0@ != rest[b].0@ by {
            assert(entries[a].0@ != entries[b].0@);
        }
        lemma_count_of(rest, i);
    }
}

pub proof fn lemma_counted(entries: Seq<(String, u32)>, path: Seq<char>)
    ensures
        count_in(entries, path) is Some ==> exists|i: int| #![trigger entries[i]]
            0 <= i < entries.len() && entries[i].0@ == path,
    decreases entries.len(),
{
    if entries.len() > 0 {
        let rest = entries.drop_last();
        lemma_counted(rest, path);
        if entries.last().0@ == path {
            assert(entries[entries.len() - 1].0@ == path);
        } else if count_in(rest, path) is Some {
            let i = choose|i: int| #![trigger rest[i]] 0 <= i < rest.len() && rest[i].0@ == path;
            assert(entries[i].0@ == path);
        }
    }
}

/// A list of pairs counts what the map that it lists holds.
proof fn lemma_listed(entries: Seq<(String, u32)>, m: Map<Seq<char>, u32>, path: Seq<char>)
    requires
        lists(entries, m),
    ensures
        count_in(entries, path) == if m.contains_key(path) {
            Some(m[path])
        } else {
            None
        },
{
    lemma_counted(entries, path);
    if m.contains_key(path) || count_in(entries, path) is Some {
        let i = choose|i: int| #![trigger entries[i]]
            0 <= i < entries.len() && entries[i].0@ == path;
        lemma_count_of(entries, i);
        assert(m.contains_key(entries[i].0@));
    }
}

/// The table that is stored as a text. A text that is no JSON object of counts gives the empty one.
pub fn parse_usage(s: &str) -> (r: UsageTable)
    ensures
        r.wf(),
        forall|p: Seq<char>| #[trigger]
            r.count(p) == match usage_counts(s@) {
                Some(m) => if m.contains_key(p) {
                    Some(m[p])
                } else {
                    None
                },
                None => None,
            },
{
    match read_counts(s) {
        Some(pairs) => {
            let r = UsageTable::from_counts(pairs.as_slice());
            proof {
                let m = usage_counts(s@)->0;
                assert forall|p: Seq<char>| #[trigger] r.count(p) == (if m.contains_key(p) {
                    Some(m[p])
                } else {
                    None
                }) by {
                    lemma_listed(pairs@, m, p);
                }
            }
            r
        },
        None => UsageTable::new(),
    }
}

/// The text as which a table is stored. Read again, it gives the same counts.
pub fn usage_text(usage: &UsageTable) -> (r: Option<String>)
    requires
        usage.wf(),
    ensures
        r matches Some(t) && (usage_counts(t@) matches Some(m) && forall|p: Seq<char>| #[trigger]
            usage.count(p) == if m.contains_key(p) {
                Some(m[p])
            } else {
                None
            }),
{
    let r = write_counts(usage.entries.as_slice());
    proof {
        let m = usage_counts(r->0@)->0;
        assert forall|p: Seq<char>| #[trigger] usage.count(p) == (if m.contains_key(p) {
            Some(m[p])
        } else {
            None
        }) by {
            lemma_listed(usage.entries@, m, p);
        }
    }
    r
}

impl UsageTable {
    /// How often a path was opened, if ever.
    pub open spec fn count(&self, path: Seq<char>) -> Option<u32> {
        count_in(self.entries@, path)
    }

    /// No path occurs twice.
    pub open spec fn wf(&self) -> bool {
        no_path_twice(self.entries@)
    }

    pub fn new() -> (r: UsageTable)
        ensures
            r.wf(),
            r.entries@.len() == 0,
            forall|p: Seq<char>| #[trigger] r.count(p) is None,
    {
        UsageTable { entries: Vec::new() }
    }

    /// The table with the counts of a list; of a path that occurs twice, the last one counts.
    pub fn from_counts(counts: &[(String, u32)]) -> (r: UsageTable)
        ensures
            r.wf(),
            forall|p: Seq<char>| #[trigger] r.count(p) == count_in(counts@, p),
    {
        let mut r = UsageTable::new();
        assert(counts@.take(0) =~= seq![]);
        for i in 0..counts.len()
            invariant
                r.wf(),
                forall|p: Seq<char>| #[trigger] r.count(p) == count_in(counts@.take(i as int), p),
        {
            assert(counts@.take(i + 1).drop_last() =~= counts@.take(i as int));
            r.set(counts[i].0.as_str(), counts[i].1);
        }
        assert(counts@.take(counts@.len() as int) =~= counts@);
        r
    }

    /// Puts the count of a path into the table.
    pub fn set(&mut self, path: &str, count: u32)
        requires
            old(self).wf(),
        ensures
            final(self).wf(),
            forall|p: Seq<char>| #[trigger]
                final(self).count(p) == if p == path@ {
                    Some(count)
                } else {
                    old(self).count(p)
                },
    {
        let ghost before = self.entries@;
        match self.position(path) {
            Some(i) => {
                let ghost key = before[i as int].0;
                let entry = self.entries.remove(i);
                let ghost rest = self.entries@;
                self.entries.push((entry.0, count));
                proof {
                    assert(rest =~= before.remove(i as int));
                    assert(entry.0@ == path@);
                    assert forall|p: Seq<char>| #[trigger]
                        count_in(self.entries@, p) == (if p == path@ {
                            Some(count)
                        } else {
                            count_in(before, p)
                        }) by {
                        assert(self.entries@.drop_last() =~= rest);
                        if p != path@ {
                            lemma_count_remove(before, i as int, p);
                        }
                    }
                    assert forall|a: int, b: int| #![trigger self.entries@[a], self.entries@[b]]
                        0 <= a < b < self.entries@.len() implies self.entries@[a].0@
                        != self.entries@[b].0@ by {
                        let x = if a < i { a } else { a + 1 };
                        let y = if b < i { b } else { b + 1 };
                        assert(rest[a] == before[x]);
                        if b < rest.len() {
                            assert(rest[b] == before[y]);
                        } else {
                            assert(before[x].0@ != before[i as int].0@);
                        }
                    }
                }
            },
            None => {
                self.entries.push((copy_str(path), count));
                proof {
                    assert(self.entries@.drop_last() =~= before);
                }
            },
        }
    }

    /// Where a path stands in the table.
    fn position(&self, path: &str) -> (r: Option<usize>)
        ensures
            match r {
                Some(i) => i < self.entries@.len() && self.entries@[i as int].0@ == path@
                    && self.count(path@) == Some(self.entries@[i as int].1),
                None => self.count(path@) is None && forall|i: int| #![trigger self.entries@[i]]
                    0 <= i < self.entries@.len() ==> self.entries@[i].0@ != path@,
            },
    {
        let mut i: usize = self.entries.len();
        assert(self.entries@.take(i as int) =~= self.entries@);
        while i > 0
            invariant
                i <= self.entries@.len(),
                self.count(path@) == count_in(self.entries@.take(i as int), path@),
                forall|j: int| #![trigger self.entries@[j]]
                    i <= j < self.entries@.len() ==> self.entries@[j].0@ != path@,
            decreases i,
        {
            assert(self.entries@.take(i as int).drop_last() =~= self.entries@.take(i - 1));
            if str_eq(self.entries[i - 1].0.as_str(), path) {
                return Some(i - 1);
            }
            i = i - 1;
        }
        None
    }

    /// How often a path was opened, if ever.
    pub fn get(&self, path: &str) -> (r: Option<u32>)
        ensures
            r == self.count(path@),
    {
        match self.position(path) {
            Some(i) => Some(self.entries[i].1),
            None => None,
        }
    }

    pub fn is_empty(&self) -> (r: bool)
        ensures
            r == (self.entries@.len() == 0),
    {
        self.entries.len() == 0
    }

    /// A count after one more use.
    pub open spec fn one_more(count: Option<u32>) -> Option<u32> {
        match count {
            Some(n) => Some((n + 1) as u32),
            None => Some(1),
        }
    }

    /// Counts that a path was opened.
    pub fn record_use(&mut self, path: &str)
        requires
            old(self).wf(),
            old(self).count(path@) != Some(u32::MAX),
        ensures
            final(self).wf(),
            forall|p: Seq<char>| #[trigger]
                final(self).count(p) == if p == path@ {
                    UsageTable::one_more(old(self).count(path@))
                } else {
                    old(self).count(p)
                },
    {
        let count = match self.get(path) {
            Some(n) => n + 1,
            None => 1,
        };
        self.set(path, count);
    }
}

proof fn lemma_count_remove(entries: Seq<(String, u32)>, i: int, p: Seq<char>)
    requires
        0 <= i < entries.len(),
        entries[i].0@ != p,
    ensures
        count_in(entries.remove(i), p) == count_in(entries, p),
    decreases entries.len(),
{
    let rest = entries.remove(i);
    if i == entries.len() - 1 {
        assert(rest =~= entries.drop_last());
    } else {
        assert(rest.drop_last() =~= entries.drop_last().remove(i));
        assert(rest.last() == entries.last());
        lemma_count_remove(entries.drop_last(), i, p);
    }
}

/// What use adds to a score.
pub open spec fn boost(count: Option<u32>) -> int {
    match count {
        Some(n) => if n * BOOST_PER_USE < BOOST_LIMIT {
            n * BOOST_PER_USE
        } else {
            BOOST_LIMIT as int
        },
        None => 0,
    }
}

fn boost_of(count: Option<u32>) -> (r: i32)
    ensures
        r == boost(count),
{
    match count {
        Some(n) => if n < 6 {
            n as i32 * BOOST_PER_USE
        } else {
            BOOST_LIMIT
        },
        None => 0,
    }
}

/// A result with what use adds to its score.
pub open spec fn boosted(r: ResultDto, usage: UsageTable) -> ResultDto {
    ResultDto { score: (r.score + boost(usage.count(r.path@))) as i32, ..r }
}

/// Results with what use adds to their scores.
pub open spec fn all_boosted(items: Seq<ResultDto>, usage: UsageTable) -> Seq<ResultDto> {
    items.map_values(|r: ResultDto| boosted(r, usage))
}

/// Scores do not rise.
pub open spec fn by_score(items: Seq<ResultDto>) -> bool {
    forall|i: int, j: int| #![trigger items[i], items[j]]
        0 <= i < j < items.len() ==> items[i].score >= items[j].score
}

/// Results in order of falling scores.
fn sort_by_score(items: Vec<ResultDto>) -> (r: Vec<ResultDto>)
    ensures
        by_score(r@),
        r@.to_multiset() == items@.to_multiset(),
{
    let mut left = items;
    let mut out: Vec<ResultDto> = Vec::new();
    proof {
        left@.to_multiset_ensures();
        out@.to_multiset_ensures();
        assert(out@.to_multiset().add(left@.to_multiset()) =~= items@.to_multiset());
    }
    while left.len() > 0
        invariant
            by_score(out@),
            out@.to_multiset().add(left@.to_multiset()) == items@.to_multiset(),
        decreases left@.len(),
    {
        let ghost had = left@;
        let ghost sorted = out@;
        let x = left.remove(left.len() - 1);
        let mut i: usize = 0;
        while i < out.len() && out[i].score > x.score
            invariant
                i <= out@.len(),
                out@ == sorted,
                forall|j: int| #![trigger sorted[j]] 0 <= j < i ==> sorted[j].score > x.score,
            decreases out@.len() - i,
        {
            i = i + 1;
        }
        out.insert(i, x);
        proof {
            had.to_multiset_ensures();
            assert(left@ =~= had.remove(had.len() - 1));
            out@.to_multiset_ensures();
            assert(out@ =~= sorted.insert(i as int, x));
            assert(out@.remove(i as int) =~= sorted);
            assert(out@[i as int] == x);
            had.to_multiset_ensures();
            assert(had.contains(x)) by {
                assert(had[had.len() - 1] == x);
            }
            assert(out@.contains(x));
            assert(out@.to_multiset().remove(x) == sorted.to_multiset());
            assert(out@.to_multiset() =~= sorted.to_multiset().insert(x));
            assert(out@.to_multiset().add(left@.to_multiset()) =~= items@.to_multiset());
            let end = out@;
            assert forall|a: int, b: int| #![trigger end[a], end[b]]
                0 <= a < b < end.len() implies end[a].score >= end[b].score by {
                let p = if a < i { a } else { a - 1 };
                let q = if b < i { b } else { b - 1 };
                if a != i {
                    assert(end[a] == sorted[p]);
                }
                if b != i {
                    assert(end[b] == sorted[q]);
                }
                if a == i && b != i {
                    assert(sorted[i as int].score <= x.score);
                    if q > i {
                        assert(sorted[i as int].score >= sorted[q].score);
                    }
                }
            }
        }
    }
    proof {
        left@.to_multiset_ensures();
        assert(left@.to_multiset() =~= vstd::multiset::Multiset::empty());
        assert(out@.to_multiset() =~= items@.to_multiset());
    }
    out
}

/// Ranks results by use as well: what is opened often gains up to 1500, which is about what the start
/// of a word counts for. With an empty table the results stay as they are.
pub fn apply_usage_boost(items: Vec<ResultDto>, usage: &UsageTable) -> (r: Vec<ResultDto>)
    requires
        forall|i: int| #![trigger items@[i]]
            0 <= i < items@.len() ==> items@[i].score + BOOST_LIMIT <= i32::MAX,
    ensures
        usage.entries@.len() == 0 ==> r@ == items@,
        usage.entries@.len() > 0 ==> by_score(r@) && r@.to_multiset() == all_boosted(
            items@,
            *usage,
        ).to_multiset(),
{
    if usage.is_empty() {
        return items;
    }
    let ghost all = items@;
    let mut items = items;
    let n: usize = items.len();
    let mut i: usize = 0;
    while i < n
        invariant
            i <= n,
            n == all.len(),
            items@.len() == n,
            forall|j: int| #![trigger all[j]]
                0 <= j < n ==> all[j].score + BOOST_LIMIT <= i32::MAX,
            forall|j: int| #![trigger items@[j]]
                0 <= j < n ==> items@[j] == if j < i {
                    boosted(all[j], *usage)
                } else {
                    all[j]
                },
        decreases n - i,
    {
        let gain = boost_of(usage.get(items[i].path.as_str()));
        assert(items@[i as int] == all[i as int]);
        let r = &mut items[i];
        r.score = r.score + gain;
        i = i + 1;
    }
    assert(items@ =~= all_boosted(all, *usage));
    sort_by_score(items)
}

/// Use alone does not lift a hit on a part of a name above a hit on the whole name: the best that a
/// part can score, with all that use can add, stays below the score of the whole name.
pub proof fn law_use_stays_below_exact(name: Seq<u16>, q: Seq<u16>, count: Option<u32>)
    requires
        q.len() > 0,
        crate::matcher::name_hit(name, q) matches Some((score, _, _)) && score != 10000,
    ensures
        crate::matcher::name_hit(name, q) matches Some((score, _, _)) && score + boost(count)
            < 10000,
{
    crate::search_laws::law_name_hit_grades(name, q);
}

/// A search result as the user interface shows it.
pub open spec fn dto_of(dto: ResultDto, r: SearchResult) -> bool {
    dto.name@ == r.name@ && dto.path@ == r.path@ && dto.is_dir == r.is_dir && dto.score == r.score
        && dto.match_start == r.match_start && dto.match_len == r.match_len
}

/// The results that are not excluded.
pub open spec fn kept(items: Seq<SearchResult>, excluded: Seq<Seq<char>>) -> Seq<SearchResult>
    decreases items.len(),
{
    if items.len() == 0 {
        seq![]
    } else {
        let rest = kept(items.drop_last(), excluded);
        if settings::begins_with_any(items.last().path@, excluded) {
            rest
        } else {
            rest.push(items.last())
        }
    }
}

/// The results show other results, one each, in the same order.
pub open spec fn dtos_of(dtos: Seq<ResultDto>, items: Seq<SearchResult>) -> bool {
    dtos.len() == items.len() && forall|i: int| #![trigger dtos[i]]
        0 <= i < dtos.len() ==> dto_of(dtos[i], items[i])
}

/// Turns search results into what is shown, without those in excluded directories: files that were
/// indexed after the index was built are kept out here.
pub fn visible_results(items: &[SearchResult], excluded: &[String]) -> (r: Vec<ResultDto>)
    ensures
        dtos_of(r@, kept(items@, text::texts(excluded@))),
{
    let ghost dirs = text::texts(excluded@);
    let mut out: Vec<ResultDto> = Vec::new();
    assert(items@.take(0) =~= seq![]);
    for i in 0..items.len()
        invariant
            dirs == text::texts(excluded@),
            dtos_of(out@, kept(items@.take(i as int), dirs)),
    {
        assert(items@.take(i + 1).drop_last() =~= items@.take(i as int));
        let r = &items[i];
        if !is_excluded(r.path.as_str(), excluded) {
            let dto = ResultDto {
                name: copy_str(r.name.as_str()),
                path: copy_str(r.path.as_str()),
                is_dir: r.is_dir,
                score: r.score,
                match_start: r.match_start,
                match_len: r.match_len,
            };
            let ghost had = out@;
            out.push(dto);
            assert forall|j: int| #![trigger out@[j]] 0 <= j < out@.len() implies dto_of(
                out@[j],
                kept(items@.take(i + 1), dirs)[j],
            ) by {
                if j < had.len() {
                    assert(out@[j] == had[j]);
                }
            }
        }
    }
    assert(items@.take(items@.len() as int) =~= items@);
    out
}

/// What a search shows: nothing that is excluded, ranked by use as well.
pub fn present(items: &[SearchResult], excluded: &[String], usage: &UsageTable) -> (r: Vec<
    ResultDto,
>)
    requires
        forall|i: int| #![trigger items@[i]]
            0 <= i < items@.len() ==> items@[i].score + BOOST_LIMIT <= i32::MAX,
    ensures
        exists|dtos: Seq<ResultDto>|
            #![trigger dtos_of(dtos, kept(items@, text::texts(excluded@)))]
            dtos_of(dtos, kept(items@, text::texts(excluded@))) && if usage.entries@.len() == 0 {
                r@ == dtos
            } else {
                by_score(r@) && r@.to_multiset() == all_boosted(dtos, *usage).to_multiset()
            },
{
    let dtos = visible_results(items, excluded);
    let ghost shown = dtos@;
    proof {
        let rest = kept(items@, text::texts(excluded@));
        lemma_kept(items@, text::texts(excluded@));
        assert forall|i: int| #![trigger shown[i]] 0 <= i < shown.len() implies shown[i].score
            + BOOST_LIMIT <= i32::MAX by {
            assert(dto_of(shown[i], rest[i]));
            assert(items@.contains(rest[i]));
        }
    }
    let r = apply_usage_boost(dtos, usage);
    assert(dtos_of(shown, kept(items@, text::texts(excluded@))));
    r
}

pub proof fn lemma_kept(items: Seq<SearchResult>, excluded: Seq<Seq<char>>)
    ensures
        forall|i: int| #![trigger kept(items, excluded)[i]]
            0 <= i < kept(items, excluded).len() ==> items.contains(kept(items, excluded)[i])
                && !settings::begins_with_any(kept(items, excluded)[i].path@, excluded),
    decreases items.len(),
{
    if items.len() > 0 {
        let rest = items.drop_last();
        lemma_kept(rest, excluded);
        let all = kept(items, excluded);
        assert forall|i: int| #![trigger all[i]] 0 <= i < all.len() implies items.contains(all[i])
            && !settings::begins_with_any(all[i].path@, excluded) by {
            if i < kept(rest, excluded).len() {
                assert(all[i] == kept(rest, excluded)[i]);
                let k = choose|k: int| 0 <= k < rest.len() && rest[k] == all[i];
                assert(items[k] == all[i]);
            } else {
                assert(items[items.len() - 1] == all[i]);
            }
        }
    }
}

/// No result that is shown lies in an excluded directory.
pub proof fn law_nothing_excluded_is_shown(
    items: Seq<SearchResult>,
    excluded: Seq<Seq<char>>,
    dtos: Seq<ResultDto>,
    i: int,
)
    requires
        dtos_of(dtos, kept(items, excluded)),
        0 <= i < dtos.len(),
    ensures
        !settings::begins_with_any(dtos[i].path@, excluded),
{
    lemma_kept(items, excluded);
    assert(dto_of(dtos[i], kept(items, excluded)[i]));
}

/// The icons that were found, or not, by key.
pub struct IconCache {
    pub entries: Vec<(String, Option<CachedIcon>)>,
}

/// Where the icon of a file is looked for.
pub struct IconRequest {
    /// The key under which it is kept.
    pub cache_key: String,
    /// The file has an icon of its own.
    pub own_icon: bool,
}

/// Whether a path in lower case is that of an application.
pub open spec fn is_app_path(lower: Seq<char>) -> bool {
    ".exe"@.is_suffix_of(lower) || ".lnk"@.is_suffix_of(lower)
}

fn ends_with(s: &[char], suffix: &[char]) -> (r: bool)
    ensures
        r == suffix@.is_suffix_of(s@),
{
    if s.len() < suffix.len() {
        return false;
    }
    let at: usize = s.len() - suffix.len();
    for i in 0..suffix.len()
        invariant
            at + suffix@.len() == s@.len(),
            s@.len() <= usize::MAX,
            forall|j: int| 0 <= j < i ==> s@[at + j] == suffix@[j],
    {
        if s[at + i] != suffix[i] {
            assert(s@.subrange(at as int, s@.len() as int)[i as int] != suffix@[i as int]);
            return false;
        }
    }
    assert(suffix@ =~= s@.subrange(at as int, s@.len() as int));
    true
}

/// Whether a file has an icon of its own.
pub open spec fn has_own_icon(path: Seq<char>) -> bool {
    is_app_path(text::ascii_lower(path))
}

/// The key under which the icon of a file is kept.
pub open spec fn icon_key(key: Seq<char>, path: Seq<char>) -> Seq<char> {
    if has_own_icon(path) {
        "p:"@ + text::ascii_lower(path)
    } else {
        key
    }
}

/// Plans the search for an icon: applications have their own, kept by path; other files are shown by
/// their kind.
pub fn icon_request(key: &str, path: &str) -> (r: IconRequest)
    ensures
        r.own_icon == has_own_icon(path@),
        r.cache_key@ == icon_key(key@, path@),
{
    let lower = to_ascii_lowercase(path);
    let chars = chars_of(lower.as_str());
    let own_icon = ends_with(chars.as_slice(), chars_of(".exe").as_slice()) || ends_with(
        chars.as_slice(),
        chars_of(".lnk").as_slice(),
    );
    let cache_key = if own_icon {
        concat("p:", lower.as_str())
    } else {
        copy_str(key)
    };
    IconRequest { cache_key, own_icon }
}

/// The icon of a key in a cache: whether it was looked for, and what was found.
pub open spec fn icon_in(entries: Seq<(String, Option<CachedIcon>)>, key: Seq<char>) -> Option<
    Option<CachedIcon>,
>
    decreases entries.len(),
{
    if entries.len() == 0 {
        None
    } else if entries.last().0@ == key {
        Some(entries.last().1)
    } else {
        icon_in(entries.drop_last(), key)
    }
}

/// An icon for the user interface.
pub open spec fn icon_shown(r: Result<IconDto, &str>, icon: Option<CachedIcon>) -> bool {
    match icon {
        Some(c) => r matches Ok(dto) && dto.w == c.w && dto.h == c.h && dto.rgba@ == c.rgba@,
        None => r matches Err(e) && e@ == "无图标"@,
    }
}

fn copy_bytes(bytes: &[u8]) -> (r: Vec<u8>)
    ensures
        r@ == bytes@,
{
    let mut out: Vec<u8> = Vec::new();
    out.extend_from_slice(bytes);
    assert(out@ =~= bytes@);
    out
}

fn show_icon(icon: &Option<CachedIcon>) -> (r: Result<IconDto, &'static str>)
    ensures
        icon_shown(r, *icon),
{
    match icon {
        Some(c) => Ok(IconDto { w: c.w, h: c.h, rgba: copy_bytes(c.rgba.as_slice()) }),
        None => Err("无图标"),
    }
}

impl IconCache {
    pub fn new() -> (r: IconCache)
        ensures
            r.entries@.len() == 0,
    {
        IconCache { entries: Vec::new() }
    }

    /// The icons that are still kept when one is looked up.
    pub open spec fn still_kept(entries: Seq<(String, Option<CachedIcon>)>) -> Seq<
        (String, Option<CachedIcon>),
    > {
        if entries.len() > ICON_CACHE_LIMIT {
            seq![]
        } else {
            entries
        }
    }

    /// Drops all icons if there are too many, so that the icons of single files do not pile up.
    fn make_room(&mut self)
        ensures
            final(self).entries@ == IconCache::still_kept(old(self).entries@),
    {
        if self.entries.len() > ICON_CACHE_LIMIT {
            self.entries.clear();
        }
    }

    /// The icon of a key, if it was looked for before; a cache that is too full is emptied first.
    pub fn lookup(&mut self, key: &str) -> (r: Option<Result<IconDto, &'static str>>)
        ensures
            final(self).entries@ == IconCache::still_kept(old(self).entries@),
            match icon_in(final(self).entries@, key@) {
                Some(icon) => r matches Some(shown) && icon_shown(shown, icon),
                None => r is None,
            },
    {
        self.make_room();
        let mut i: usize = self.entries.len();
        assert(self.entries@.take(i as int) =~= self.entries@);
        while i > 0
            invariant
                i <= self.entries@.len(),
                self.entries@ == IconCache::still_kept(old(self).entries@),
                icon_in(self.entries@, key@) == icon_in(self.entries@.take(i as int), key@),
            decreases i,
        {
            assert(self.entries@.take(i as int).drop_last() =~= self.entries@.take(i - 1));
            if str_eq(self.entries[i - 1].0.as_str(), key) {
                return Some(show_icon(&self.entries[i - 1].1));
            }
            i = i - 1;
        }
        None
    }

    /// Keeps what was found under a key that was not looked for before, and shows it.
    pub fn store(&mut self, key: &str, icon: Option<CachedIcon>) -> (r: Result<
        IconDto,
        &'static str,
    >)
        requires
            icon_in(old(self).entries@, key@) is None,
        ensures
            icon_shown(r, icon),
            forall|k: Seq<char>| #[trigger]
                icon_in(final(self).entries@, k) == if k == key@ {
                    Some(icon)
                } else {
                    icon_in(old(self).entries@, k)
                },
            final(self).entries@.len() == old(self).entries@.len() + 1,
    {
        let r = show_icon(&icon);
        let ghost before = self.entries@;
        self.entries.push((copy_str(key), icon));
        assert(self.entries@.drop_last() =~= before);
        r
    }
}

/// The path and the attributes by which the icon of a kind of file is asked for.
pub struct IconProbe {
    pub path: String,
    pub attributes: u32,
}

/// The path and the attributes of a file of the given kind.
pub open spec fn probe_of(key: Seq<char>) -> (Seq<char>, int) {
    if key == "dir"@ {
        ("C:\\Program Files\\launcher-fake-dir"@, 0x10)
    } else {
        ("C:\\fake\\file"@ + text::ascii_lower(key), 0x80)
    }
}

/// Names a file of the given kind: `dir`, or an extension with its dot.
pub fn icon_probe(key: &str) -> (r: IconProbe)
    ensures
        (r.path@, r.attributes as int) == probe_of(key@),
{
    if str_eq(key, "dir") {
        IconProbe { path: copy_str("C:\\Program Files\\launcher-fake-dir"), attributes: 0x10 }
    } else {
        IconProbe {
            path: concat("C:\\fake\\file", to_ascii_lowercase(key).as_str()),
            attributes: 0x80,
        }
    }
}

/// Some pixel is not fully transparent.
pub open spec fn has_alpha(pixels: Seq<u8>) -> bool {
    exists|i: int| #![trigger pixels[i]] 0 <= i < pixels.len() && i % 4 == 3 && pixels[i] != 0
}

/// Pixels with red and blue exchanged. Where no pixel has an alpha value, as in old icons, all are
/// opaque. Bytes that make no whole pixel stay.
pub open spec fn rgba_of(pixels: Seq<u8>) -> Seq<u8> {
    Seq::new(
        pixels.len(),
        |i: int|
            if i / 4 * 4 + 4 > pixels.len() {
                pixels[i]
            } else if i % 4 == 0 {
                pixels[i + 2]
            } else if i % 4 == 2 {
                pixels[i - 2]
            } else if i % 4 == 3 && !has_alpha(pixels) {
                255
            } else {
                pixels[i]
            },
    )
}

/// Turns pixels with blue first into pixels with red first.
pub fn bgra_to_rgba(pixels: Vec<u8>) -> (r: Vec<u8>)
    ensures
        r@ == rgba_of(pixels@),
{
    let ghost all = pixels@;
    let n: usize = pixels.len();
    let mut alpha = false;
    for i in 0..n
        invariant
            n == pixels@.len(),
            alpha <==> exists|j: int| #![trigger pixels@[j]]
                0 <= j < i && j % 4 == 3 && pixels@[j] != 0,
    {
        if i % 4 == 3 && pixels[i] != 0 {
            alpha = true;
            assert(pixels@[i as int] != 0);
        }
    }
    let mut out = pixels;
    let mut i: usize = 0;
    while n - i >= 4
        invariant
            i <= n,
            i % 4 == 0,
            n == all.len(),
            out@.len() == n,
            alpha == has_alpha(all),
            forall|j: int| #![trigger out@[j]]
                0 <= j < n ==> out@[j] == if j < i {
                    rgba_of(all)[j]
                } else {
                    all[j]
                },
        decreases n - i,
    {
        let blue = out[i];
        let red = out[i + 2];
        assert(blue == all[i as int] && red == all[i + 2]);
        assert(out@[i + 1] == all[i + 1] && out@[i + 3] == all[i + 3]);
        out.set(i, red);
        out.set(i + 2, blue);
        if !alpha {
            out.set(i + 3, 255);
        }
        i = i + 4;
    }
    assert(out@ =~= rgba_of(all));
    out
}

} // verus!
