//! What the engine leaves out, walks, replaces and stores, and how a session goes on, step by step.

use vstd::prelude::*;

use crate::engine;
use crate::engine::{JournalLoop, LoopStep};
use crate::index_laws;
use crate::model;
use crate::model::VolumeModel;
use crate::py;
use crate::session;
use crate::session::{ActionModel, EventModel, JournalState, Phase, SessionModel, SurveyModel};
use crate::text;
use crate::text_laws;
use crate::usn;
use crate::usn::UsnError;
use crate::volume;

verus! {

/// A path lies in a directory that is given as it is compared exactly if it begins with it, but for
/// the case of ASCII letters and the kind of separators, and either ends there or goes on with a
/// separator.
pub proof fn law_lies_in_directory(path: Seq<char>, dir: Seq<char>)
    requires
        text::path_key(dir) == dir,
    ensures
        engine::lies_in(path, dir) <==> {
            &&& dir.len() <= path.len()
            &&& forall|i: int| #![trigger dir[i]]
                0 <= i < dir.len() ==> text_laws::same_in_path(path[i], dir[i])
            &&& path.len() == dir.len() || path[dir.len() as int] == '\\' || path[dir.len() as int]
                == '/'
        },
{
    let key = text::path_key(path);
    text_laws::law_paths_as_compared(path, path);
    if dir.len() <= path.len() {
        let head = path.take(dir.len() as int);
        text_laws::law_paths_as_compared(dir, head);
        assert(text::path_key(head) =~= key.take(dir.len() as int));
        assert forall|i: int| 0 <= i < dir.len() implies head[i] == path[i] by {}
        if dir.is_prefix_of(key) {
            assert(dir =~= key.take(dir.len() as int));
            assert forall|i: int| #![trigger dir[i]] 0 <= i < dir.len() implies
                text_laws::same_in_path(path[i], dir[i]) by {
                assert(text_laws::same_in_path(dir[i], head[i]));
            }
        }
        if forall|i: int| #![trigger dir[i]]
            0 <= i < dir.len() ==> text_laws::same_in_path(path[i], dir[i]) {
            assert forall|i: int| #![trigger dir[i]] 0 <= i < dir.len() implies
                text_laws::same_in_path(dir[i], head[i]) by {
                assert(text_laws::same_in_path(path[i], dir[i]));
            }
            assert(dir.is_prefix_of(key));
        }
        if dir.len() < path.len() {
            let c = path[dir.len() as int];
            assert(text_laws::same_in_path(c, key[dir.len() as int]));
            assert(key[dir.len() as int] == '\\' <==> c == '\\' || c == '/');
        }
    }
}

/// A path lies in none of the directories exactly if it lies in no single one.
pub proof fn law_lies_in_any_directory(path: Seq<char>, dirs: Seq<Seq<char>>, dir: Seq<char>)
    ensures
        !engine::lies_in_any(path, seq![]),
        engine::lies_in_any(path, dirs.push(dir)) <==> engine::lies_in_any(path, dirs)
            || engine::lies_in(path, dir),
{
    let all = dirs.push(dir);
    if engine::lies_in_any(path, dirs) {
        let i = choose|i: int| #![trigger dirs[i]]
            0 <= i < dirs.len() && engine::lies_in(path, dirs[i]);
        assert(all[i] == dirs[i]);
    }
    assert(all[dirs.len() as int] == dir);
    if engine::lies_in_any(path, all) {
        let i = choose|i: int| #![trigger all[i]] 0 <= i < all.len() && engine::lies_in(path, all[i]);
        if i < dirs.len() {
            assert(dirs[i] == all[i]);
        }
    }
}

/// The start menu of all users always counts, and that of the user where a home directory is known
/// that has something behind its drive.
pub proof fn law_start_menu_directories(drive: Seq<char>, rest: Seq<char>)
    requires
        drive.len() > 0,
        !drive.contains('\\'),
    ensures
        ({
            let common = seq!["ProgramData"@, "Microsoft"@, "Windows"@, "Start Menu"@, "Programs"@];
            let below = seq![
                "AppData"@,
                "Roaming"@,
                "Microsoft"@,
                "Windows"@,
                "Start Menu"@,
                "Programs"@,
            ];
            let home = drive.push('\\') + rest;
            &&& engine::menu_paths(None) == seq![common]
            &&& text::pieces(rest, '\\').len() == 0 ==> engine::menu_paths(Some(home)) == seq![common]
            &&& text::pieces(rest, '\\').len() > 0 ==> engine::menu_paths(Some(home)) == seq![
                common,
                text::pieces(rest, '\\') + below,
            ]
        }),
{
    text_laws::law_pieces(drive, rest, '\\');
    let home = drive.push('\\') + rest;
    assert(text::pieces(home, '\\').drop_first() =~= text::pieces(rest, '\\'));
}

/// The start menus of NTFS volumes are marked, and other volumes stay.
pub proof fn law_volumes_are_marked(volumes: Seq<VolumeModel>, paths: Seq<Seq<Seq<char>>>, v: int)
    requires
        0 <= v < volumes.len(),
    ensures
        engine::marked(volumes, paths).len() == volumes.len(),
        volumes[v].is_ntfs ==> engine::marked(volumes, paths)[v] == volumes[v].mark_start_menu(paths),
        !volumes[v].is_ntfs ==> engine::marked(volumes, paths)[v] == volumes[v],
{
}

/// Dropping the volumes of a letter leaves all others, in their order; with the walked ones alone, it
/// leaves the NTFS volumes too.
pub proof fn law_volumes_are_dropped(volumes: Seq<VolumeModel>, m: VolumeModel, letter: char)
    ensures
        engine::without(seq![], letter, true).len() == 0,
        engine::without(seq![], letter, false).len() == 0,
        engine::without(volumes.push(m), letter, false) == if m.letter == letter {
            engine::without(volumes, letter, false)
        } else {
            engine::without(volumes, letter, false).push(m)
        },
        engine::without(volumes.push(m), letter, true) == if m.letter == letter && !m.is_ntfs {
            engine::without(volumes, letter, true)
        } else {
            engine::without(volumes, letter, true).push(m)
        },
{
    assert(volumes.push(m).drop_last() =~= volumes);
}

/// The volume of a letter is the first one that has it.
pub proof fn law_volume_of_a_letter(volumes: Seq<VolumeModel>, letter: char, from: int)
    requires
        0 <= from,
    ensures
        match engine::volume_from(volumes, letter, from) {
            Some(i) => from <= i < volumes.len() && volumes[i].letter == letter && forall|j: int|
                #![trigger volumes[j]]
                from <= j < i ==> volumes[j].letter != letter,
            None => forall|j: int| #![trigger volumes[j]]
                from <= j < volumes.len() ==> volumes[j].letter != letter,
        },
    decreases volumes.len() - from,
{
    if from < volumes.len() && volumes[from].letter != letter {
        law_volume_of_a_letter(volumes, letter, from + 1);
    }
}

/// The letters of the NTFS volumes come in the order of the volumes.
pub proof fn law_letters_of_ntfs_volumes(volumes: Seq<VolumeModel>, m: VolumeModel)
    ensures
        engine::ntfs_letters_of(seq![]).len() == 0,
        engine::ntfs_letters_of(volumes.push(m)) == if m.is_ntfs {
            engine::ntfs_letters_of(volumes).push(m.letter)
        } else {
            engine::ntfs_letters_of(volumes)
        },
{
    assert(volumes.push(m).drop_last() =~= volumes);
}

/// A list has a letter.
pub open spec fn lists_letter(letters: Seq<char>, d: char) -> bool {
    exists|i: int| #![trigger letters[i]] 0 <= i < letters.len() && letters[i] == d
}

/// The drives that are walked are the letters from `A` on, in their order, that are there, are not
/// disabled, were not indexed by their file table and, where file tables can be read, are fixed disks.
pub proof fn law_drives_that_are_walked(
    n: int,
    present: Seq<char>,
    built: Seq<char>,
    disabled: Seq<char>,
    is_admin: bool,
    fixed: Seq<char>,
)
    requires
        0 <= n < 26,
    ensures
        ({
            let d = ('A' as int + n) as char;
            let before = engine::walked_of(n, present, built, disabled, is_admin, fixed);
            engine::walked_of(n + 1, present, built, disabled, is_admin, fixed) == if lists_letter(present, d)
                && !lists_letter(disabled, d) && !lists_letter(built, d) && (is_admin ==> lists_letter(fixed, d)) {
                before.push(d)
            } else {
                before
            }
        }),
        engine::walked_of(0, present, built, disabled, is_admin, fixed).len() == 0,
{
    let d = volume::letter_at(n);
    lemma_has(present, d);
    lemma_has(disabled, d);
    lemma_has(built, d);
    lemma_has(fixed, d);
}

proof fn lemma_has(letters: Seq<char>, d: char)
    ensures
        lists_letter(letters, d) <==> letters.contains(d),
{
    if letters.contains(d) {
        let i = choose|i: int| 0 <= i < letters.len() && letters[i] == d;
        assert(letters[i] == d);
    }
}

/// A drive is walked from its root. Drive `C` is walked from the directories of the user that are on
/// it, and nowhere where file tables can be read.
pub proof fn law_roots_of_a_walk(d: char, degraded: Seq<Seq<char>>, dir: Seq<char>)
    ensures
        d != 'C' ==> engine::roots_of(d, true, degraded) == seq![seq![d, ':', '\\']],
        d != 'C' ==> engine::roots_of(d, false, degraded) == seq![seq![d, ':', '\\']],
        engine::roots_of('C', true, degraded).len() == 0,
        engine::roots_of('C', false, seq![]).len() == 0,
        engine::roots_of('C', false, degraded.push(dir)) == if dir.len() > 0 && dir[0] == 'C' {
            engine::roots_of('C', false, degraded).push(dir)
        } else {
            engine::roots_of('C', false, degraded)
        },
{
    assert(degraded.push(dir).drop_last() =~= degraded);
}

/// Each root of each drive is walked, drive by drive.
pub proof fn law_walks(letters: Seq<char>, d: char, is_admin: bool, degraded: Seq<Seq<char>>)
    ensures
        session::walks_of(seq![], is_admin, degraded).len() == 0,
        ({
            let before = session::walks_of(letters, is_admin, degraded);
            let all = session::walks_of(letters.push(d), is_admin, degraded);
            let roots = engine::roots_of(d, is_admin, degraded);
            &&& all.len() == before.len() + roots.len()
            &&& all.take(before.len() as int) == before
            &&& forall|i: int| #![trigger roots[i]]
                0 <= i < roots.len() ==> all[before.len() + i] == (d, roots[i])
        }),
{
    assert(letters.push(d).drop_last() =~= letters);
    let before = session::walks_of(letters, is_admin, degraded);
    let all = session::walks_of(letters.push(d), is_admin, degraded);
    assert(all.take(before.len() as int) =~= before);
}

/// The drives that are not disabled come in their order.
pub proof fn law_enabled_drives(drives: Seq<char>, d: char, disabled: Seq<char>)
    ensures
        session::enabled_of(seq![], disabled).len() == 0,
        session::enabled_of(drives.push(d), disabled) == if lists_letter(disabled, d) {
            session::enabled_of(drives, disabled)
        } else {
            session::enabled_of(drives, disabled).push(d)
        },
{
    assert(drives.push(d).drop_last() =~= drives);
    lemma_has(disabled, d);
}

/// A snapshot is due where something has changed and the last one was more than a minute ago.
pub proof fn law_snapshot_is_due(dirty: bool, since_save_ns: u128)
    ensures
        engine::save_due(dirty, since_save_ns) <==> dirty && since_save_ns > 60 * 1_000_000_000,
{
}

/// Records change their volume alone: it holds what they lead to, and goes on from the position behind
/// them.
pub proof fn law_records_change_their_volume(
    volumes: Seq<VolumeModel>,
    i: int,
    records: Seq<usn::UpdateModel>,
    next: i64,
    j: int,
)
    requires
        0 <= i < volumes.len(),
        0 <= j < volumes.len(),
    ensures
        ({
            let after = engine::with_records(volumes, i, records, next);
            &&& after.len() == volumes.len()
            &&& j != i ==> after[j] == volumes[j]
            &&& after[i].next_usn == next
            &&& after[i].live() == usn::applied(volumes[i], records).live()
            &&& after[i].entries == usn::applied(volumes[i], records).entries
            &&& after[i].letter == usn::applied(volumes[i], records).letter
            &&& after[i].journal_id == usn::applied(volumes[i], records).journal_id
        }),
{
    let after = engine::with_records(volumes, i, records, next);
    assert(after[i].live() =~= usn::applied(volumes[i], records).live());
}

/// Letter, kind and size of each volume are reported.
pub proof fn law_volumes_are_reported(volumes: Seq<VolumeModel>, v: int)
    requires
        0 <= v < volumes.len(),
        volumes[v].entries.len() <= usize::MAX,
    ensures
        engine::volume_lines(volumes).len() == volumes.len(),
        engine::volume_lines(volumes)[v].0 == volumes[v].letter,
        engine::volume_lines(volumes)[v].1 == volumes[v].is_ntfs,
        engine::volume_lines(volumes)[v].2 == volumes[v].entries.len(),
{
}

/// What is left of a volume: where nothing is excluded, all of it.
pub proof fn law_nothing_is_filtered(m: VolumeModel)
    ensures
        session::filtered(m, seq![]) == m,
{
}

/// A session from nothing tries the file tables of the candidates that are not disabled, in their
/// order, where file tables can be read; one from a snapshot tries those of all candidates.
pub proof fn law_sessions_begin(survey: SurveyModel, anew: bool)
    ensures
        ({
            let s = session::scratch_session(survey, anew);
            let t = session::snapshot_session(survey);
            &&& s.phase is Build && s.at == 0 && s.anew == anew && s.survey == survey
            &&& s.live.len() == 0 && s.built.len() == 0 && !s.upgraded
            &&& survey.is_admin ==> s.queue == session::enabled_of(survey.candidates, survey.disabled)
            &&& !survey.is_admin ==> s.queue.len() == 0
            &&& t.phase is Upgrade && t.at == 0 && !t.anew && t.survey == survey
            &&& t.live.len() == 0 && t.built.len() == 0 && !t.upgraded
            &&& survey.is_admin ==> t.queue == survey.candidates
            &&& !survey.is_admin ==> t.queue.len() == 0
        }),
{
}

/// The walks that follow when all file tables were tried.
pub open spec fn walks_to_come(survey: SurveyModel, built: Seq<char>) -> Seq<(char, Seq<char>)> {
    session::walks_of(
        engine::walked_of(
            26,
            survey.present,
            built,
            survey.disabled,
            survey.is_admin,
            survey.fixed,
        ),
        survey.is_admin,
        survey.degraded,
    )
}

/// A session that tries file tables asks for the one at hand; when there is none left it asks for the
/// first walk; and where there is nothing to walk either, the start menus are marked and a snapshot is
/// stored.
pub proof fn law_file_tables_are_tried(s: SessionModel, volumes: Seq<VolumeModel>)
    requires
        s.phase is Build,
        s.at >= 0,
    ensures
        ({
            let (after, there, action) = session::step_of(s, volumes, EventModel::Begin);
            let walks = walks_to_come(s.survey, s.built);
            if s.at < s.queue.len() {
                after == s && there == volumes && action == ActionModel::Rebuild(s.queue[s.at])
            } else if walks.len() > 0 {
                &&& after.phase is Walk && after.walks == walks && after.at == 0
                &&& there == volumes
                &&& action == ActionModel::Walk(walks[0].0, walks[0].1)
            } else {
                &&& after.phase is Save
                &&& there == engine::marked(volumes, s.survey.menu)
                &&& action is Save
            }
        }),
{
    if s.at >= s.queue.len() {
        assert(session::advance(s, volumes) == session::advance(s.walking(), volumes));
    }
}

/// A file table that was read gives a volume, without what is excluded, and its drive counts as
/// indexed; one that could not be read gives none. Either way the session goes on with the next one.
pub proof fn law_file_table_was_tried(
    s: SessionModel,
    volumes: Seq<VolumeModel>,
    rebuilt: Option<VolumeModel>,
)
    requires
        s.phase is Build,
        0 <= s.at < s.queue.len(),
    ensures
        session::step_of(s, volumes, EventModel::Rebuilt(rebuilt)) == match rebuilt {
            Some(m) => session::step_of(
                SessionModel { at: s.at + 1, built: s.built.push(s.queue[s.at]), ..s },
                volumes.push(session::filtered(m, s.survey.excluded)),
                EventModel::Begin,
            ),
            None => session::step_of(
                SessionModel { at: s.at + 1, ..s },
                volumes,
                EventModel::Begin,
            ),
        },
{
}

/// A session that walks asks for the walk at hand, and takes the volume that comes of it as it is. When
/// there is none left, the start menus are marked and a snapshot is stored.
pub proof fn law_directories_are_walked(s: SessionModel, volumes: Seq<VolumeModel>, m: VolumeModel)
    requires
        s.phase is Walk,
        s.at >= 0,
    ensures
        s.at < s.walks.len() ==> session::step_of(s, volumes, EventModel::Begin) == (
            s,
            volumes,
            ActionModel::Walk(s.walks[s.at].0, s.walks[s.at].1),
        ),
        s.at >= s.walks.len() ==> session::step_of(s, volumes, EventModel::Begin) == (
            SessionModel { phase: Phase::Save, ..s },
            engine::marked(volumes, s.survey.menu),
            ActionModel::Save,
        ),
        s.at < s.walks.len() ==> session::step_of(s, volumes, EventModel::Walked(m))
            == session::step_of(
            SessionModel { at: s.at + 1, ..s },
            volumes.push(m),
            EventModel::Begin,
        ),
{
}

/// When the snapshot has been dealt with, the journals of the NTFS volumes are taken up, where journals
/// can be read.
pub proof fn law_journals_are_taken_up(s: SessionModel, volumes: Seq<VolumeModel>)
    requires
        s.phase is Save,
    ensures
        session::step_of(s, volumes, EventModel::Begin) == (s, volumes, ActionModel::Save),
        session::step_of(s, volumes, EventModel::Saved) == session::step_of(
            SessionModel {
                phase: Phase::Listen,
                queue: if s.survey.is_admin {
                    engine::ntfs_letters_of(volumes)
                } else {
                    seq![]
                },
                at: 0,
                ..s
            },
            volumes,
            EventModel::Begin,
        ),
{
}

/// A session that takes up journals asks for the one at hand, passes over a drive that has no volume,
/// and is done when there is none left.
pub proof fn law_journals_are_asked_for(s: SessionModel, volumes: Seq<VolumeModel>)
    requires
        s.phase is Listen,
        s.at >= 0,
    ensures
        s.at >= s.queue.len() ==> session::step_of(s, volumes, EventModel::Begin) == (
            SessionModel { phase: Phase::Done, ..s },
            volumes,
            ActionModel::Done,
        ),
        s.at < s.queue.len() && (exists|v: int| #![trigger volumes[v]]
            0 <= v < volumes.len() && volumes[v].letter == s.queue[s.at]) ==> session::step_of(
            s,
            volumes,
            EventModel::Begin,
        ) == (s, volumes, ActionModel::Query(s.queue[s.at])),
        s.at < s.queue.len() && (forall|v: int| #![trigger volumes[v]]
            0 <= v < volumes.len() ==> volumes[v].letter != s.queue[s.at]) ==> session::step_of(
            s,
            volumes,
            EventModel::Begin,
        ) == session::step_of(SessionModel { at: s.at + 1, ..s }, volumes, EventModel::Begin),
{
    if s.at < s.queue.len() {
        law_volume_of_a_letter(volumes, s.queue[s.at], 0);
    }
}

/// The journal of a volume was asked for. It is followed from where the volume stands, if it is still
/// the same journal and holds all from there on. If not, an index built anew follows it from its end,
/// and any other has the volume indexed anew. Where there is no journal, the next one is asked for.
pub proof fn law_journal_was_asked_for(
    s: SessionModel,
    volumes: Seq<VolumeModel>,
    j: JournalState,
    v: int,
)
    requires
        s.phase is Listen,
        0 <= s.at < s.queue.len(),
        0 <= v < volumes.len(),
        volumes[v].letter == s.queue[s.at],
        forall|k: int| #![trigger volumes[k]] 0 <= k < v ==> volumes[k].letter != s.queue[s.at],
    ensures
        ({
            let d = s.queue[s.at];
            let (after, there, action) = session::step_of(s, volumes, EventModel::Journal(Some(j)));
            let whole = volumes[v].journal_id == j.id && j.first <= volumes[v].next_usn;
            &&& after == s && there == volumes
            &&& whole ==> action == ActionModel::Listen(
                JournalLoop {
                    letter: d,
                    journal_id: volumes[v].journal_id,
                    cursor: volumes[v].next_usn,
                    dirty: false,
                },
            )
            &&& !whole && s.anew ==> action == ActionModel::Listen(
                JournalLoop { letter: d, journal_id: j.id, cursor: j.next, dirty: false },
            )
            &&& !whole && !s.anew ==> action == ActionModel::Rebuild(d)
        }),
        session::step_of(s, volumes, EventModel::Journal(None)) == session::step_of(
            SessionModel { at: s.at + 1, ..s },
            volumes,
            EventModel::Begin,
        ),
{
    law_volume_of_a_letter(volumes, s.queue[s.at], 0);
}

/// A journal that is followed counts, and the next one is asked for.
pub proof fn law_journal_is_followed(s: SessionModel, volumes: Seq<VolumeModel>)
    requires
        s.phase is Listen,
        0 <= s.at < s.queue.len(),
    ensures
        session::step_of(s, volumes, EventModel::Listening) == session::step_of(
            SessionModel { live: s.live.push(s.queue[s.at]), at: s.at + 1, ..s },
            volumes,
            EventModel::Begin,
        ),
{
}

/// A volume that was indexed anew because its journal was lost comes in the place of all of its letter,
/// and is followed from where it stands; where it could not be, the next journal is asked for.
pub proof fn law_lost_volume_was_indexed(
    s: SessionModel,
    volumes: Seq<VolumeModel>,
    m: VolumeModel,
)
    requires
        s.phase is Listen,
        0 <= s.at < s.queue.len(),
    ensures
        session::step_of(s, volumes, EventModel::Rebuilt(Some(m))) == (
            s,
            engine::without(volumes, s.queue[s.at], false).push(
                session::filtered(m, s.survey.excluded),
            ),
            ActionModel::Listen(
                JournalLoop {
                    letter: s.queue[s.at],
                    journal_id: m.journal_id,
                    cursor: m.next_usn,
                    dirty: false,
                },
            ),
        ),
        session::step_of(s, volumes, EventModel::Rebuilt(None)) == session::step_of(
            SessionModel { at: s.at + 1, ..s },
            volumes,
            EventModel::Begin,
        ),
{
}

/// A session with a snapshot asks for the file table of each candidate that has no NTFS volume yet.
/// When there is none left, the start menus are marked and a snapshot is stored if a volume was
/// upgraded; otherwise journals are taken up at once.
pub proof fn law_snapshot_is_upgraded(s: SessionModel, volumes: Seq<VolumeModel>, m: VolumeModel)
    requires
        s.phase is Upgrade,
        s.at >= 0,
    ensures
        s.at < s.queue.len() && (forall|v: int| #![trigger volumes[v]]
            0 <= v < volumes.len() ==> !(volumes[v].letter == s.queue[s.at] && volumes[v].is_ntfs))
            ==> session::step_of(s, volumes, EventModel::Begin) == (
            s,
            volumes,
            ActionModel::Rebuild(s.queue[s.at]),
        ),
        s.at < s.queue.len() && (exists|v: int| #![trigger volumes[v]]
            0 <= v < volumes.len() && volumes[v].letter == s.queue[s.at] && volumes[v].is_ntfs)
            ==> session::step_of(s, volumes, EventModel::Begin) == session::step_of(
            SessionModel { at: s.at + 1, ..s },
            volumes,
            EventModel::Begin,
        ),
        s.at >= s.queue.len() && s.upgraded ==> session::step_of(s, volumes, EventModel::Begin) == (
            SessionModel { phase: Phase::Save, ..s },
            engine::marked(volumes, s.survey.menu),
            ActionModel::Save,
        ),
        s.at >= s.queue.len() && !s.upgraded ==> session::step_of(s, volumes, EventModel::Begin)
            == session::step_of(
            SessionModel { phase: Phase::Save, ..s },
            volumes,
            EventModel::Saved,
        ),
        s.at < s.queue.len() ==> session::step_of(s, volumes, EventModel::Rebuilt(Some(m)))
            == session::step_of(
            SessionModel { at: s.at + 1, upgraded: true, ..s },
            engine::without(volumes, s.queue[s.at], true).push(
                session::filtered(m, s.survey.excluded),
            ),
            EventModel::Begin,
        ),
        s.at < s.queue.len() ==> session::step_of(s, volumes, EventModel::Rebuilt(None))
            == session::step_of(SessionModel { at: s.at + 1, ..s }, volumes, EventModel::Begin),
{
    assert((SessionModel { phase: Phase::Save, ..s }).listening(volumes) == s.listening(volumes));
}

/// What comes out of place changes nothing, and a session that is done stays so.
pub proof fn law_events_out_of_place(
    s: SessionModel,
    volumes: Seq<VolumeModel>,
    rebuilt: Option<VolumeModel>,
    m: VolumeModel,
    journal: Option<JournalState>,
)
    ensures
        s.phase is Done ==> session::step_of(s, volumes, EventModel::Begin) == (
            s,
            volumes,
            ActionModel::Done,
        ),
        s.phase is Walk || s.phase is Save || s.phase is Done ==> session::step_of(
            s,
            volumes,
            EventModel::Rebuilt(rebuilt),
        ) == session::step_of(s, volumes, EventModel::Begin),
        !(s.phase is Walk) ==> session::step_of(s, volumes, EventModel::Walked(m))
            == session::step_of(s, volumes, EventModel::Begin),
        !(s.phase is Save) ==> session::step_of(s, volumes, EventModel::Saved) == session::step_of(
            s,
            volumes,
            EventModel::Begin,
        ),
        !(s.phase is Listen) ==> session::step_of(s, volumes, EventModel::Journal(journal))
            == session::step_of(s, volumes, EventModel::Begin),
        !(s.phase is Listen) ==> session::step_of(s, volumes, EventModel::Listening)
            == session::step_of(s, volumes, EventModel::Begin),
{
}

/// A loop that has read records applies them to the first volume of its letter, goes on behind them,
/// and tells how many changes they made. It notes that there were changes, and saves where there were
/// some and the last snapshot was more than a minute ago; then nothing is left to be saved.
pub proof fn law_loop_applies_records(
    state: JournalLoop,
    volumes: Seq<VolumeModel>,
    records: Seq<usn::UpdateModel>,
    next: i64,
    since_save_ns: u128,
    v: int,
)
    requires
        records.len() > 0,
        0 <= v < volumes.len(),
        volumes[v].letter == state.letter,
        forall|k: int| #![trigger volumes[k]] 0 <= k < v ==> volumes[k].letter != state.letter,
    ensures
        ({
            let (after, there, step, count) = engine::after_records(
                state,
                volumes,
                records,
                next,
                since_save_ns,
            );
            let changed = state.dirty || count > 0;
            let saves = changed && since_save_ns > 60 * 1_000_000_000;
            &&& count == usn::change_count(volumes[v], records)
            &&& there == engine::with_records(volumes, v, records, next)
            &&& after.cursor == next
            &&& after.letter == state.letter
            &&& after.journal_id == state.journal_id
            &&& step == if saves {
                LoopStep::Save
            } else {
                LoopStep::Read
            }
            &&& after.dirty <==> changed && !saves
        }),
{
    law_volume_of_a_letter(volumes, state.letter, 0);
}

/// A loop that has read no records only goes on from the new position, and saves where that is due. One
/// whose volume is gone stops as it is when records come for it.
pub proof fn law_loop_without_records_or_volume(
    state: JournalLoop,
    volumes: Seq<VolumeModel>,
    records: Seq<usn::UpdateModel>,
    next: i64,
    since_save_ns: u128,
)
    ensures
        ({
            let (after, there, step, count) = engine::after_records(
                state,
                volumes,
                records,
                next,
                since_save_ns,
            );
            let saves = state.dirty && since_save_ns > 60 * 1_000_000_000;
            &&& records.len() == 0 ==> there == volumes && count == 0 && after.cursor == next
                && after.letter == state.letter && after.journal_id == state.journal_id && step == (
            if saves {
                LoopStep::Save
            } else {
                LoopStep::Read
            }) && (after.dirty <==> state.dirty && !saves)
            &&& records.len() > 0 && (forall|k: int| #![trigger volumes[k]]
                0 <= k < volumes.len() ==> volumes[k].letter != state.letter) ==> step is Stop && after
                == state && there == volumes && count == 0
        }),
{
    law_volume_of_a_letter(volumes, state.letter, 0);
}

/// A loop to which nothing came in time goes on, or saves where that is due; one whose journal is lost
/// has its volume indexed anew; any other error has it wait. Nothing else about it changes.
pub proof fn law_loop_after_errors(state: JournalLoop, text: String, since_save_ns: u128)
    ensures
        engine::after_error(state, UsnError::JournalDeleted, since_save_ns) == (
            state,
            LoopStep::Rebuild,
        ),
        engine::after_error(state, UsnError::Io(text), since_save_ns) == (state, LoopStep::Wait),
        ({
            let saves = state.dirty && since_save_ns > 60 * 1_000_000_000;
            let (after, step) = engine::after_error(state, UsnError::Timeout, since_save_ns);
            &&& saves ==> step is Save && !after.dirty
            &&& !saves ==> step is Read && after.dirty == state.dirty
            &&& after.cursor == state.cursor
            &&& after.letter == state.letter
            &&& after.journal_id == state.journal_id
        }),
{
}

/// A volume that was indexed anew comes in the place of all of its letter, and the loop goes on with
/// the journal and the position of the new one; where that failed, the loop stops as it is.
pub proof fn law_loop_after_rebuilding(state: JournalLoop, volumes: Seq<VolumeModel>, m: VolumeModel)
    ensures
        ({
            let (after, there, step) = engine::after_rebuilding(state, volumes, Some(m));
            &&& step is Read
            &&& there == engine::without(volumes, state.letter, false).push(m)
            &&& after.journal_id == m.journal_id
            &&& after.cursor == m.next_usn
            &&& after.letter == state.letter
            &&& after.dirty == state.dirty
        }),
        engine::after_rebuilding(state, volumes, None) == (state, volumes, LoopStep::Stop),
{
}

/// The directories of a user that are walked.
pub proof fn law_directories_of_a_user(dir: Seq<char>)
    ensures
        engine::user_dirs().contains(dir) <==> dir == "Desktop"@ || dir == "Documents"@ || dir
            == "Downloads"@ || dir == "Pictures"@ || dir == "Videos"@ || dir == "Music"@,
        engine::user_dirs().len() == 6,
{
    let all = engine::user_dirs();
    assert(all[0] == "Desktop"@ && all[1] == "Documents"@ && all[2] == "Downloads"@ && all[3]
        == "Pictures"@ && all[4] == "Videos"@ && all[5] == "Music"@);
    if all.contains(dir) {
        let i = choose|i: int| 0 <= i < all.len() && all[i] == dir;
        assert(0 <= i < 6);
    }
}

/// A path that was found and lies in none of the excluded directories comes into the index as it is, as
/// a directory exactly where it is one; one that lies in one of them does not.
pub proof fn law_found_paths(
    m: VolumeModel,
    path: Seq<char>,
    is_dir: bool,
    dirs: Seq<Seq<char>>,
)
    requires
        m.inv(),
        m.addressable(),
        text::utf16(path).len() <= u16::MAX,
    ensures
        ({
            let n = engine::with_found(m, path, is_dir, dirs);
            let last = m.entries.len() as int;
            if exists|i: int| #![trigger dirs[i]] 0 <= i < dirs.len() && engine::lies_in(path, dirs[i]) {
                n == m
            } else {
                &&& n.entries.len() == last + 1
                &&& n.full_path(last) == path
                &&& (n.entries[last].flags & 1 != 0) <==> is_dir
                &&& forall|s: int| #![trigger n.entries[s]]
                    0 <= s < last ==> n.entries[s] == m.entries[s]
            }
        }),
{
    let units = text::utf16(path);
    let py = py::name_spelling(model::file_part(units));
    index_laws::law_path_is_indexed(m, units, is_dir, py);
    text::law_utf16_round_trip(path);
}

} // verus!
