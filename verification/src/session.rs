//! How an index comes to be at startup, and how it is built anew on demand: a sequence of tasks, of
//! which each outcome decides the next.
//!
//! With a snapshot, the index is there at once: volumes that can now be read by their file table
//! but were only walked before are upgraded, and the NTFS volumes catch up with their journals from
//! the position the snapshot holds. Without a snapshot everything is indexed: by the file tables
//! where they can be read, by walking directories elsewhere; then a snapshot is stored. In the end
//! the journal of each NTFS volume is listened to.

use vstd::prelude::*;

use crate::engine;
use crate::engine::{copy_letters, filter_volume_excluded, find_volume, has_mft, mark_all_start_menu, ntfs_letters, replace_volume, walk_letters, walk_roots, JournalLoop};
use crate::index;
use crate::index::{Index, VolumeIndex};
use crate::laws;
use crate::model::VolumeModel;
use crate::settings;
use crate::text;
use crate::text::{chars_contain, copy_str};

verus! {

/// What is known of the machine and wanted of the index.
pub struct Survey {
    /// File tables and journals can be read.
    pub is_admin: bool,
    /// The drives whose file tables are tried.
    pub candidates: Vec<char>,
    /// The fixed disks.
    pub fixed: Vec<char>,
    /// The drives that are there.
    pub present: Vec<char>,
    /// The directories of the user that exist.
    pub degraded: Vec<String>,
    /// The drives that are not to be indexed.
    pub disabled: Vec<char>,
    /// The directories that are not to be indexed, in lower case and with `\` as separator.
    pub excluded: Vec<String>,
    /// The start menu directories.
    pub menu: Vec<Vec<String>>,
}

#[verifier::ext_equal]
pub struct SurveyModel {
    pub is_admin: bool,
    pub candidates: Seq<char>,
    pub fixed: Seq<char>,
    pub present: Seq<char>,
    pub degraded: Seq<Seq<char>>,
    pub disabled: Seq<char>,
    pub excluded: Seq<Seq<char>>,
    pub menu: Seq<Seq<Seq<char>>>,
}

impl View for Survey {
    type V = SurveyModel;

    open spec fn view(&self) -> SurveyModel {
        SurveyModel {
            is_admin: self.is_admin,
            candidates: self.candidates@,
            fixed: self.fixed@,
            present: self.present@,
            degraded: text::texts(self.degraded@),
            disabled: self.disabled@,
            excluded: text::texts(self.excluded@),
            menu: index::path_texts(self.menu@),
        }
    }
}

/// Where a session stands.
#[derive(Clone, Copy, Debug, PartialEq, Eq, Structural)]
pub enum Phase {
    /// Volumes of a snapshot that were only walked are indexed by their file table.
    Upgrade,
    /// Drives are indexed by their file table.
    Build,
    /// Drives are indexed by walking.
    Walk,
    /// A snapshot is stored.
    Save,
    /// Journals are taken up.
    Listen,
    Done,
}

/// A session: what is left to be done, and what has been done.
pub struct Session {
    pub survey: Survey,
    /// The index is built anew on demand, and not at startup.
    pub anew: bool,
    pub phase: Phase,
    /// The drives of the present phase.
    pub queue: Vec<char>,
    /// The walks of the present phase, drive and root each.
    pub walks: Vec<(char, String)>,
    /// How many of them are done.
    pub at: usize,
    /// The drives that were indexed by their file table.
    pub built: Vec<char>,
    /// The drives whose journals are listened to.
    pub live: Vec<char>,
    /// A volume of the snapshot was upgraded.
    pub upgraded: bool,
}

#[verifier::ext_equal]
pub struct SessionModel {
    pub survey: SurveyModel,
    pub anew: bool,
    pub phase: Phase,
    pub queue: Seq<char>,
    pub walks: Seq<(char, Seq<char>)>,
    pub at: int,
    pub built: Seq<char>,
    pub live: Seq<char>,
    pub upgraded: bool,
}

/// Drives and roots of walks.
pub open spec fn walk_texts(walks: Seq<(char, String)>) -> Seq<(char, Seq<char>)> {
    walks.map_values(|w: (char, String)| (w.0, w.1@))
}

impl View for Session {
    type V = SessionModel;

    open spec fn view(&self) -> SessionModel {
        SessionModel {
            survey: self.survey@,
            anew: self.anew,
            phase: self.phase,
            queue: self.queue@,
            walks: walk_texts(self.walks@),
            at: self.at as int,
            built: self.built@,
            live: self.live@,
            upgraded: self.upgraded,
        }
    }
}

/// What is to be done next.
pub enum Action {
    /// Index a drive by its file table, aligned with its journal.
    Rebuild(char),
    /// Index a directory of a drive by walking it.
    Walk(char, String),
    /// Store a snapshot.
    Save,
    /// Ask for the journal of a drive.
    Query(char),
    /// Start to follow a journal.
    Listen(JournalLoop),
    Done,
}

pub enum ActionModel {
    Rebuild(char),
    Walk(char, Seq<char>),
    Save,
    Query(char),
    Listen(JournalLoop),
    Done,
}

impl View for Action {
    type V = ActionModel;

    open spec fn view(&self) -> ActionModel {
        match *self {
            Action::Rebuild(d) => ActionModel::Rebuild(d),
            Action::Walk(d, root) => ActionModel::Walk(d, root@),
            Action::Save => ActionModel::Save,
            Action::Query(d) => ActionModel::Query(d),
            Action::Listen(l) => ActionModel::Listen(l),
            Action::Done => ActionModel::Done,
        }
    }
}

/// The state of a journal.
#[derive(Clone, Copy, Debug, PartialEq, Eq, Structural)]
pub struct JournalState {
    pub id: u64,
    /// The oldest position that is still there.
    pub first: i64,
    /// The position of the next record.
    pub next: i64,
}

/// What came of the last action.
pub enum Event {
    /// The session begins.
    Begin,
    /// The new index of the drive, if it could be read.
    Rebuilt(Option<VolumeIndex>),
    /// The index of the directory.
    Walked(VolumeIndex),
    /// The snapshot has been dealt with.
    Saved,
    /// The state of the journal, if there is one.
    Journal(Option<JournalState>),
    /// The journal is followed.
    Listening,
}

pub enum EventModel {
    Begin,
    Rebuilt(Option<VolumeModel>),
    Walked(VolumeModel),
    Saved,
    Journal(Option<JournalState>),
    Listening,
}

impl View for Event {
    type V = EventModel;

    open spec fn view(&self) -> EventModel {
        match *self {
            Event::Begin => EventModel::Begin,
            Event::Rebuilt(v) => EventModel::Rebuilt(
                match v {
                    Some(x) => Some(x@),
                    None => None,
                },
            ),
            Event::Walked(v) => EventModel::Walked(v@),
            Event::Saved => EventModel::Saved,
            Event::Journal(j) => EventModel::Journal(j),
            Event::Listening => EventModel::Listening,
        }
    }
}

/// The drives of a list that are not disabled.
pub open spec fn enabled_of(drives: Seq<char>, disabled: Seq<char>) -> Seq<char>
    decreases drives.len(),
{
    if drives.len() == 0 {
        seq![]
    } else {
        let rest = enabled_of(drives.drop_last(), disabled);
        if disabled.contains(drives.last()) {
            rest
        } else {
            rest.push(drives.last())
        }
    }
}

/// Walks of one drive.
pub open spec fn drive_walks(d: char, roots: Seq<Seq<char>>) -> Seq<(char, Seq<char>)> {
    roots.map_values(|r: Seq<char>| (d, r))
}

/// The walks of some drives.
pub open spec fn walks_of(letters: Seq<char>, is_admin: bool, degraded: Seq<Seq<char>>) -> Seq<
    (char, Seq<char>),
>
    decreases letters.len(),
{
    if letters.len() == 0 {
        seq![]
    } else {
        walks_of(letters.drop_last(), is_admin, degraded) + drive_walks(
            letters.last(),
            engine::roots_of(letters.last(), is_admin, degraded),
        )
    }
}

impl SessionModel {
    /// The session with the next drive or walk of its phase.
    pub open spec fn passed(self) -> SessionModel {
        SessionModel { at: self.at + 1, ..self }
    }

    /// The session that takes up walking.
    pub open spec fn walking(self) -> SessionModel {
        let s = self.survey;
        let letters = engine::walked_of(
            26,
            s.present,
            self.built,
            s.disabled,
            s.is_admin,
            s.fixed,
        );
        SessionModel {
            phase: Phase::Walk,
            walks: walks_of(letters, s.is_admin, s.degraded),
            at: 0,
            ..self
        }
    }

    /// The session that takes up journals, if they can be read.
    pub open spec fn listening(self, volumes: Seq<VolumeModel>) -> SessionModel {
        SessionModel {
            phase: Phase::Listen,
            queue: if self.survey.is_admin {
                engine::ntfs_letters_of(volumes)
            } else {
                seq![]
            },
            at: 0,
            ..self
        }
    }

    /// How far a session is from its end.
    pub open spec fn left(self) -> int {
        match self.phase {
            Phase::Upgrade => 5,
            Phase::Build => 5,
            Phase::Walk => 4,
            Phase::Save => 3,
            Phase::Listen => 2,
            Phase::Done => 1,
        }
    }
}

/// A session, the volumes and what is done next.
pub type Outcome = (SessionModel, Seq<VolumeModel>, ActionModel);

/// The session goes to what has to be done next.
pub open spec fn advance(s: SessionModel, volumes: Seq<VolumeModel>) -> Outcome
    decreases s.left(), s.queue.len() - s.at,
{
    let more = 0 <= s.at < s.queue.len();
    match s.phase {
        Phase::Upgrade => if more && engine::has_ntfs_volume(volumes, s.queue[s.at]) {
            advance(s.passed(), volumes)
        } else if more {
            (s, volumes, ActionModel::Rebuild(s.queue[s.at]))
        } else if s.upgraded {
            (
                SessionModel { phase: Phase::Save, ..s },
                engine::marked(volumes, s.survey.menu),
                ActionModel::Save,
            )
        } else {
            advance(s.listening(volumes), volumes)
        },
        Phase::Build => if more {
            (s, volumes, ActionModel::Rebuild(s.queue[s.at]))
        } else {
            advance(s.walking(), volumes)
        },
        Phase::Walk => if 0 <= s.at < s.walks.len() {
            (s, volumes, ActionModel::Walk(s.walks[s.at].0, s.walks[s.at].1))
        } else {
            (
                SessionModel { phase: Phase::Save, ..s },
                engine::marked(volumes, s.survey.menu),
                ActionModel::Save,
            )
        },
        Phase::Save => (s, volumes, ActionModel::Save),
        Phase::Listen => if more && engine::volume_from(volumes, s.queue[s.at], 0) is None {
            advance(s.passed(), volumes)
        } else if more {
            (s, volumes, ActionModel::Query(s.queue[s.at]))
        } else {
            (SessionModel { phase: Phase::Done, ..s }, volumes, ActionModel::Done)
        },
        Phase::Done => (s, volumes, ActionModel::Done),
    }
}

/// The volume without what lies in excluded directories.
pub open spec fn filtered(m: VolumeModel, excluded: Seq<Seq<char>>) -> VolumeModel {
    if excluded.len() == 0 {
        m
    } else {
        engine::removed_all(m, engine::excluded_frns(m, excluded, m.entries.len() as int))
    }
}

/// Whether a journal still holds all that happened since a volume was indexed.
pub open spec fn is_continuous(m: VolumeModel, journal: JournalState) -> bool {
    journal.id == m.journal_id && journal.first <= m.next_usn
}

/// A volume was indexed by its file table, or could not be. What lies in excluded directories is left
/// out of it.
pub open spec fn after_rebuild(
    s: SessionModel,
    volumes: Seq<VolumeModel>,
    rebuilt: Option<VolumeModel>,
) -> Outcome {
    let d = s.queue[s.at];
    match rebuilt {
        Some(m) => match s.phase {
            Phase::Upgrade => advance(
                SessionModel { upgraded: true, ..s.passed() },
                engine::without(volumes, d, true).push(filtered(m, s.survey.excluded)),
            ),
            Phase::Build => advance(
                SessionModel { built: s.built.push(d), ..s.passed() },
                volumes.push(filtered(m, s.survey.excluded)),
            ),
            _ => (
                s,
                engine::without(volumes, d, false).push(filtered(m, s.survey.excluded)),
                ActionModel::Listen(
                    JournalLoop {
                        letter: d,
                        journal_id: m.journal_id,
                        cursor: m.next_usn,
                        dirty: false,
                    },
                ),
            ),
        },
        None => advance(s.passed(), volumes),
    }
}

/// The journal of a drive was asked for. Where it still holds all that happened, the volume catches
/// up from where it stands. Otherwise a volume from a snapshot is indexed anew; one that has just
/// been indexed goes on from the end of the journal.
pub open spec fn after_query(
    s: SessionModel,
    volumes: Seq<VolumeModel>,
    journal: Option<JournalState>,
) -> Outcome {
    let d = s.queue[s.at];
    match (journal, engine::volume_from(volumes, d, 0)) {
        (Some(j), Some(i)) => if is_continuous(volumes[i], j) {
            (
                s,
                volumes,
                ActionModel::Listen(
                    JournalLoop {
                        letter: d,
                        journal_id: j.id,
                        cursor: volumes[i].next_usn,
                        dirty: false,
                    },
                ),
            )
        } else if s.anew {
            (
                s,
                volumes,
                ActionModel::Listen(
                    JournalLoop { letter: d, journal_id: j.id, cursor: j.next, dirty: false },
                ),
            )
        } else {
            (s, volumes, ActionModel::Rebuild(d))
        },
        _ => advance(s.passed(), volumes),
    }
}

/// What follows from an event. One that does not belong to the phase changes nothing.
pub open spec fn step_of(s: SessionModel, volumes: Seq<VolumeModel>, event: EventModel) -> Outcome {
    let more = 0 <= s.at < s.queue.len();
    match event {
        EventModel::Rebuilt(rebuilt) => if more && (s.phase is Upgrade || s.phase is Build
            || s.phase is Listen) {
            after_rebuild(s, volumes, rebuilt)
        } else {
            advance(s, volumes)
        },
        EventModel::Walked(m) => if s.phase is Walk && 0 <= s.at < s.walks.len() {
            advance(s.passed(), volumes.push(m))
        } else {
            advance(s, volumes)
        },
        EventModel::Saved => if s.phase is Save {
            advance(s.listening(volumes), volumes)
        } else {
            advance(s, volumes)
        },
        EventModel::Journal(journal) => if s.phase is Listen && more {
            after_query(s, volumes, journal)
        } else {
            advance(s, volumes)
        },
        EventModel::Listening => if s.phase is Listen && more {
            advance(SessionModel { live: s.live.push(s.queue[s.at]), ..s.passed() }, volumes)
        } else {
            advance(s, volumes)
        },
        EventModel::Begin => advance(s, volumes),
    }
}

fn enabled(drives: &[char], disabled: &[char]) -> (r: Vec<char>)
    ensures
        r@ == enabled_of(drives@, disabled@),
{
    let mut out: Vec<char> = Vec::new();
    assert(drives@.take(0) =~= seq![]);
    for i in 0..drives.len()
        invariant
            out@ == enabled_of(drives@.take(i as int), disabled@),
    {
        assert(drives@.take(i + 1).drop_last() =~= drives@.take(i as int));
        if !chars_contain(disabled, drives[i]) {
            out.push(drives[i]);
        }
    }
    assert(drives@.take(drives@.len() as int) =~= drives@);
    out
}

fn list_walks(letters: &[char], is_admin: bool, degraded: &[String]) -> (r: Vec<(char, String)>)
    ensures
        walk_texts(r@) == walks_of(letters@, is_admin, text::texts(degraded@)),
{
    let ghost dirs = text::texts(degraded@);
    let mut out: Vec<(char, String)> = Vec::new();
    assert(letters@.take(0) =~= seq![]);
    assert(walk_texts(out@) =~= seq![]);
    for i in 0..letters.len()
        invariant
            dirs == text::texts(degraded@),
            walk_texts(out@) == walks_of(letters@.take(i as int), is_admin, dirs),
    {
        let d = letters[i];
        assert(letters@.take(i + 1).drop_last() =~= letters@.take(i as int));
        let roots = walk_roots(d, is_admin, degraded);
        let ghost all = drive_walks(d, text::texts(roots@));
        let ghost start = walk_texts(out@);
        assert(start + all.take(0) =~= start);
        for k in 0..roots.len()
            invariant
                all == drive_walks(d, text::texts(roots@)),
                walk_texts(out@) == start + all.take(k as int),
        {
            let root = copy_str(roots[k].as_str());
            let ghost had = walk_texts(out@);
            out.push((d, root));
            assert(all[k as int] == (d, roots@[k as int]@));
            assert(walk_texts(out@) =~= had.push(all[k as int]));
            assert(all.take(k + 1) =~= all.take(k as int).push(all[k as int]));
            assert(walk_texts(out@) =~= start + all.take(k + 1));
        }
        assert(all.take(all.len() as int) =~= all);
    }
    assert(letters@.take(letters@.len() as int) =~= letters@);
    out
}

/// The session of a startup with a snapshot, as it begins.
pub open spec fn snapshot_session(survey: SurveyModel) -> SessionModel {
    SessionModel {
        survey,
        anew: false,
        phase: Phase::Upgrade,
        queue: if survey.is_admin {
            survey.candidates
        } else {
            seq![]
        },
        walks: seq![],
        at: 0,
        built: seq![],
        live: seq![],
        upgraded: false,
    }
}

/// The session that indexes everything, as it begins.
pub open spec fn scratch_session(survey: SurveyModel, anew: bool) -> SessionModel {
    SessionModel {
        survey,
        anew,
        phase: Phase::Build,
        queue: if survey.is_admin {
            enabled_of(survey.candidates, survey.disabled)
        } else {
            seq![]
        },
        walks: seq![],
        at: 0,
        built: seq![],
        live: seq![],
        upgraded: false,
    }
}

impl Session {
    /// The session of a startup with a snapshot, whose start menus are marked.
    pub fn with_snapshot(survey: Survey, index: &mut Index) -> (r: Session)
        requires
            engine::all_wf(old(index)@),
        ensures
            final(index)@ == engine::marked(old(index)@, survey@.menu),
            engine::all_wf(final(index)@),
            r@ == snapshot_session(survey@),
    {
        mark_all_start_menu(index, survey.menu.as_slice());
        let queue = if survey.is_admin {
            copy_letters(survey.candidates.as_slice())
        } else {
            Vec::new()
        };
        let r = Session {
            survey,
            anew: false,
            phase: Phase::Upgrade,
            queue,
            walks: Vec::new(),
            at: 0,
            built: Vec::new(),
            live: Vec::new(),
            upgraded: false,
        };
        assert(r@.walks =~= seq![]);
        r
    }

    /// The session that indexes everything: at a startup without a snapshot, or anew on demand.
    pub fn from_scratch(survey: Survey, anew: bool) -> (r: Session)
        ensures
            r@ == scratch_session(survey@, anew),
    {
        let queue = if survey.is_admin {
            enabled(survey.candidates.as_slice(), survey.disabled.as_slice())
        } else {
            Vec::new()
        };
        let r = Session {
            survey,
            anew,
            phase: Phase::Build,
            queue,
            walks: Vec::new(),
            at: 0,
            built: Vec::new(),
            live: Vec::new(),
            upgraded: false,
        };
        assert(r@.walks =~= seq![]);
        r
    }

    /// Goes to what has to be done next.
    fn go_on(&mut self, index: &mut Index) -> (r: Action)
        requires
            engine::all_wf(old(index)@),
        ensures
            engine::all_wf(final(index)@),
            (final(self)@, final(index)@, r@) == advance(old(self)@, old(index)@),
        decreases old(self)@.left(), old(self)@.queue.len() - old(self)@.at,
    {
        let ghost start = self@;
        let ghost volumes = index@;
        match self.phase {
            Phase::Upgrade => {
                if self.at < self.queue.len() {
                    let d = self.queue[self.at];
                    if has_mft(index, d) {
                        self.at = self.at + 1;
                        assert(self@ =~= start.passed());
                        self.go_on(index)
                    } else {
                        Action::Rebuild(d)
                    }
                } else if self.upgraded {
                    self.phase = Phase::Save;
                    mark_all_start_menu(index, self.survey.menu.as_slice());
                    Action::Save
                } else {
                    self.listen(index);
                    self.go_on(index)
                }
            },
            Phase::Build => {
                if self.at < self.queue.len() {
                    Action::Rebuild(self.queue[self.at])
                } else {
                    let letters = walk_letters(
                        self.survey.present.as_slice(),
                        self.built.as_slice(),
                        self.survey.disabled.as_slice(),
                        self.survey.is_admin,
                        self.survey.fixed.as_slice(),
                    );
                    self.walks = list_walks(
                        letters.as_slice(),
                        self.survey.is_admin,
                        self.survey.degraded.as_slice(),
                    );
                    self.phase = Phase::Walk;
                    self.at = 0;
                    assert(self@ =~= start.walking());
                    self.go_on(index)
                }
            },
            Phase::Walk => {
                if self.at < self.walks.len() {
                    let walk = &self.walks[self.at];
                    assert(start.walks[start.at] == (walk.0, walk.1@));
                    Action::Walk(walk.0, copy_str(walk.1.as_str()))
                } else {
                    self.phase = Phase::Save;
                    mark_all_start_menu(index, self.survey.menu.as_slice());
                    Action::Save
                }
            },
            Phase::Save => Action::Save,
            Phase::Listen => {
                if self.at < self.queue.len() {
                    let d = self.queue[self.at];
                    if find_volume(index, d).is_none() {
                        self.at = self.at + 1;
                        assert(self@ =~= start.passed());
                        self.go_on(index)
                    } else {
                        Action::Query(d)
                    }
                } else {
                    self.phase = Phase::Done;
                    Action::Done
                }
            },
            Phase::Done => Action::Done,
        }
    }

    fn listen(&mut self, index: &Index)
        ensures
            final(self)@ == old(self)@.listening(index@),
    {
        self.phase = Phase::Listen;
        self.queue = if self.survey.is_admin {
            ntfs_letters(index)
        } else {
            Vec::new()
        };
        self.at = 0;
        assert(self@ =~= old(self)@.listening(index@));
    }

    /// Takes the outcome of the last action into account and tells what is to be done next. A
    /// volume that is handed in belongs to the drive that was asked for.
    pub fn step(&mut self, index: &mut Index, event: Event) -> (r: Action)
        requires
            engine::all_wf(old(index)@),
            event@ matches EventModel::Rebuilt(Some(m)) ==> m.wf() && (old(self)@.at
                < old(self)@.queue.len() ==> m.letter == old(self)@.queue[old(self)@.at]),
            event@ matches EventModel::Walked(m) ==> m.wf(),
        ensures
            engine::all_wf(final(index)@),
            (final(self)@, final(index)@, r@) == step_of(old(self)@, old(index)@, event@),
    {
        let ghost start = self@;
        let ghost volumes = index@;
        match event {
            Event::Rebuilt(rebuilt) => {
                let takes = match self.phase {
                    Phase::Upgrade => true,
                    Phase::Build => true,
                    Phase::Listen => true,
                    _ => false,
                };
                if !takes || self.at >= self.queue.len() {
                    return self.go_on(index);
                }
                let d = self.queue[self.at];
                match rebuilt {
                    Some(v) => {
                        let mut v = v;
                        let journal_id = v.journal_id;
                        let cursor = v.next_usn;
                        proof {
                            engine::lemma_removed_letter(
                                v@,
                                engine::excluded_frns(
                                    v@,
                                    start.survey.excluded,
                                    v@.entries.len() as int,
                                ),
                            );
                        }
                        if self.survey.excluded.len() > 0 {
                            filter_volume_excluded(&mut v, self.survey.excluded.as_slice());
                        }
                        let ghost kept = v@;
                        match self.phase {
                            Phase::Upgrade => {
                                replace_volume(index, v, true);
                                self.upgraded = true;
                                self.at = self.at + 1;
                                self.go_on(index)
                            },
                            Phase::Build => {
                                index.volumes.push(v);
                                assert(index@ =~= volumes.push(kept));
                                self.built.push(d);
                                self.at = self.at + 1;
                                self.go_on(index)
                            },
                            _ => {
                                replace_volume(index, v, false);
                                Action::Listen(
                                    JournalLoop { letter: d, journal_id, cursor, dirty: false },
                                )
                            },
                        }
                    },
                    None => {
                        self.at = self.at + 1;
                        self.go_on(index)
                    },
                }
            },
            Event::Walked(v) => {
                if self.at < self.walks.len() && self.in_phase(Phase::Walk) {
                    let ghost m = v@;
                    index.volumes.push(v);
                    assert(index@ =~= volumes.push(m));
                    self.at = self.at + 1;
                }
                self.go_on(index)
            },
            Event::Saved => {
                if self.in_phase(Phase::Save) {
                    self.listen(index);
                }
                self.go_on(index)
            },
            Event::Journal(journal) => {
                if !self.in_phase(Phase::Listen) || self.at >= self.queue.len() {
                    return self.go_on(index);
                }
                let d = self.queue[self.at];
                match (journal, find_volume(index, d)) {
                    (Some(j), Some(i)) => {
                        assert(volumes[i as int] == index.volumes@[i as int]@);
                        let next_usn = index.volumes[i].next_usn;
                        if j.id == index.volumes[i].journal_id && j.first <= next_usn {
                            Action::Listen(
                                JournalLoop {
                                    letter: d,
                                    journal_id: j.id,
                                    cursor: next_usn,
                                    dirty: false,
                                },
                            )
                        } else if self.anew {
                            Action::Listen(
                                JournalLoop {
                                    letter: d,
                                    journal_id: j.id,
                                    cursor: j.next,
                                    dirty: false,
                                },
                            )
                        } else {
                            Action::Rebuild(d)
                        }
                    },
                    _ => {
                        self.at = self.at + 1;
                        self.go_on(index)
                    },
                }
            },
            Event::Listening => {
                if self.in_phase(Phase::Listen) && self.at < self.queue.len() {
                    self.live.push(self.queue[self.at]);
                    self.at = self.at + 1;
                }
                self.go_on(index)
            },
            Event::Begin => self.go_on(index),
        }
    }

    fn in_phase(&self, phase: Phase) -> (r: bool)
        ensures
            r == (self.phase == phase),
    {
        self.phase == phase
    }
}

/// At a startup, an NTFS volume from the snapshot whose journal still holds everything catches up
/// from the position that the snapshot holds; nothing is indexed anew.
pub proof fn law_snapshot_catches_up(s: SessionModel, volumes: Seq<VolumeModel>, j: JournalState)
    requires
        s.phase is Listen,
        0 <= s.at < s.queue.len(),
        engine::volume_from(volumes, s.queue[s.at], 0) matches Some(i) && is_continuous(
            volumes[i],
            j,
        ),
    ensures
        ({
            let i = engine::volume_from(volumes, s.queue[s.at], 0)->0;
            step_of(s, volumes, EventModel::Journal(Some(j))) == (
                s,
                volumes,
                ActionModel::Listen(
                    JournalLoop {
                        letter: s.queue[s.at],
                        journal_id: j.id,
                        cursor: volumes[i].next_usn,
                        dirty: false,
                    },
                ),
            )
        }),
{
}

/// At a startup, a volume whose journal has another id, or has dropped what the volume has not
/// seen, is indexed anew.
pub proof fn law_lost_journal_rebuilds(s: SessionModel, volumes: Seq<VolumeModel>, j: JournalState)
    requires
        s.phase is Listen,
        !s.anew,
        0 <= s.at < s.queue.len(),
        engine::volume_from(volumes, s.queue[s.at], 0) matches Some(i) && !is_continuous(
            volumes[i],
            j,
        ),
    ensures
        step_of(s, volumes, EventModel::Journal(Some(j))) == (
            s,
            volumes,
            ActionModel::Rebuild(s.queue[s.at]),
        ),
{
}

/// The event belongs to what was asked for: a volume that was indexed by its file table is an NTFS
/// volume, and any volume that is handed in is that of the drive.
pub open spec fn belongs(s: SessionModel, event: EventModel) -> bool {
    match event {
        EventModel::Rebuilt(Some(m)) => s.at < s.queue.len() ==> m.is_ntfs && m.letter
            == s.queue[s.at],
        EventModel::Walked(m) => s.at < s.walks.len() ==> m.letter == s.walks[s.at].0,
        _ => true,
    }
}

/// A session and the volumes after some events.
pub open spec fn after_events(
    s: SessionModel,
    volumes: Seq<VolumeModel>,
    events: Seq<EventModel>,
) -> (SessionModel, Seq<VolumeModel>)
    decreases events.len(),
{
    if events.len() == 0 {
        (s, volumes)
    } else {
        let before = after_events(s, volumes, events.drop_last());
        let outcome = step_of(before.0, before.1, events.last());
        (outcome.0, outcome.1)
    }
}

/// Each of some events belongs to what was asked for.
pub open spec fn all_belong(
    s: SessionModel,
    volumes: Seq<VolumeModel>,
    events: Seq<EventModel>,
) -> bool
    decreases events.len(),
{
    events.len() == 0 || all_belong(s, volumes, events.drop_last()) && belongs(
        after_events(s, volumes, events.drop_last()).0,
        events.last(),
    )
}

/// All letters are those of NTFS volumes.
pub open spec fn all_ntfs(letters: Seq<char>, volumes: Seq<VolumeModel>) -> bool {
    forall|i: int| #![trigger letters[i]]
        0 <= i < letters.len() ==> engine::has_ntfs_volume(volumes, letters[i])
}

/// Only journals of NTFS volumes are listened to, and none where journals cannot be read. Before
/// journals are taken up, none is listened to.
pub open spec fn listens_rightly(s: SessionModel, volumes: Seq<VolumeModel>) -> bool {
    &&& all_ntfs(s.live, volumes)
    &&& !s.survey.is_admin ==> s.live.len() == 0
    &&& s.phase is Listen ==> all_ntfs(s.queue, volumes) && (!s.survey.is_admin ==> s.queue.len()
        == 0)
    &&& s.phase is Upgrade || s.phase is Build || s.phase is Walk || s.phase is Save
        ==> s.live.len() == 0
}

proof fn lemma_ntfs_letters(volumes: Seq<VolumeModel>)
    ensures
        all_ntfs(engine::ntfs_letters_of(volumes), volumes),
    decreases volumes.len(),
{
    if volumes.len() > 0 {
        let rest = volumes.drop_last();
        let fewer = engine::ntfs_letters_of(rest);
        let letters = engine::ntfs_letters_of(volumes);
        lemma_ntfs_letters(rest);
        assert forall|i: int| #![trigger letters[i]] 0 <= i < letters.len() implies
            engine::has_ntfs_volume(volumes, letters[i]) by {
            if i < fewer.len() {
                assert(letters[i] == fewer[i]);
                let v = choose|v: int| #![trigger rest[v]]
                    0 <= v < rest.len() && rest[v].letter == fewer[i] && rest[v].is_ntfs;
                assert(volumes[v] == rest[v]);
            } else {
                assert(volumes[volumes.len() - 1].letter == letters[i]);
            }
        }
    }
}

proof fn lemma_listens_on(s: SessionModel, volumes: Seq<VolumeModel>)
    requires
        listens_rightly(s, volumes),
    ensures
        listens_rightly(advance(s, volumes).0, advance(s, volumes).1),
    decreases s.left(), s.queue.len() - s.at,
{
    let more = 0 <= s.at < s.queue.len();
    match s.phase {
        Phase::Upgrade => if more && engine::has_ntfs_volume(volumes, s.queue[s.at]) {
            lemma_listens_on(s.passed(), volumes);
        } else if !more && !s.upgraded {
            lemma_ntfs_letters(volumes);
            lemma_listens_on(s.listening(volumes), volumes);
        },
        Phase::Build => if !more {
            lemma_listens_on(s.walking(), volumes);
        },
        Phase::Listen => if more && engine::volume_from(volumes, s.queue[s.at], 0) is None {
            lemma_listens_on(s.passed(), volumes);
        },
        _ => {},
    }
}

proof fn lemma_without_kept(volumes: Seq<VolumeModel>, letter: char, walked_only: bool, m: VolumeModel)
    ensures
        engine::without(volumes, letter, walked_only).contains(m) <==> volumes.contains(m)
            && !engine::is_dropped(m, letter, walked_only),
    decreases volumes.len(),
{
    let kept = engine::without(volumes, letter, walked_only);
    if volumes.len() > 0 {
        let rest = volumes.drop_last();
        let fewer = engine::without(rest, letter, walked_only);
        let last = volumes.last();
        lemma_without_kept(rest, letter, walked_only, m);
        if fewer.contains(m) {
            let i = choose|i: int| 0 <= i < fewer.len() && fewer[i] == m;
            assert(kept[i] == m);
        }
        if rest.contains(m) {
            let i = choose|i: int| 0 <= i < rest.len() && rest[i] == m;
            assert(volumes[i] == m);
        }
        if volumes.contains(m) && !rest.contains(m) {
            let i = choose|i: int| 0 <= i < volumes.len() && volumes[i] == m;
            if i < rest.len() {
                assert(rest[i] == m);
            }
        }
        if m == last {
            assert(volumes[volumes.len() - 1] == m);
            if !engine::is_dropped(m, letter, walked_only) {
                assert(kept[kept.len() - 1] == m);
            }
        }
        if kept.contains(m) && !fewer.contains(m) {
            let i = choose|i: int| 0 <= i < kept.len() && kept[i] == m;
            if i < fewer.len() {
                assert(fewer[i] == m);
            }
        }
    }
}

/// A volume in the place of those of its letter leaves a letter with an NTFS volume with one.
proof fn lemma_ntfs_replaced(volumes: Seq<VolumeModel>, m: VolumeModel, letter: char)
    requires
        m.is_ntfs,
        engine::has_ntfs_volume(volumes, letter) || letter == m.letter,
    ensures
        engine::has_ntfs_volume(engine::without(volumes, m.letter, false).push(m), letter),
{
    let kept = engine::without(volumes, m.letter, false);
    let all = kept.push(m);
    if letter == m.letter {
        assert(all[kept.len() as int].is_ntfs);
    } else {
        let v = choose|v: int| #![trigger volumes[v]]
            0 <= v < volumes.len() && volumes[v].letter == letter && volumes[v].is_ntfs;
        lemma_without_kept(volumes, m.letter, false, volumes[v]);
        assert(volumes.contains(volumes[v]));
        let i = choose|i: int| 0 <= i < kept.len() && kept[i] == volumes[v];
        assert(all[i].is_ntfs);
    }
}

/// Every step keeps it so that only journals of NTFS volumes are listened to, and none where
/// journals cannot be read.
pub proof fn law_step_listens_rightly(
    s: SessionModel,
    volumes: Seq<VolumeModel>,
    event: EventModel,
)
    requires
        listens_rightly(s, volumes),
        belongs(s, event),
        s.at >= 0,
    ensures
        listens_rightly(step_of(s, volumes, event).0, step_of(s, volumes, event).1),
{
    let more = 0 <= s.at < s.queue.len();
    lemma_listens_on(s, volumes);
    match event {
        EventModel::Rebuilt(rebuilt) => if more && (s.phase is Upgrade || s.phase is Build
            || s.phase is Listen) {
            let d = s.queue[s.at];
            match rebuilt {
                Some(m) => match s.phase {
                    Phase::Upgrade => {
                        lemma_listens_on(
                            SessionModel { upgraded: true, ..s.passed() },
                            engine::without(volumes, d, true).push(filtered(m, s.survey.excluded)),
                        );
                    },
                    Phase::Build => {
                        lemma_listens_on(
                            SessionModel { built: s.built.push(d), ..s.passed() },
                            volumes.push(filtered(m, s.survey.excluded)),
                        );
                    },
                    _ => {
                        let kept = filtered(m, s.survey.excluded);
                        let next = engine::without(volumes, d, false).push(kept);
                        engine::lemma_removed_letter(
                            m,
                            engine::excluded_frns(m, s.survey.excluded, m.entries.len() as int),
                        );
                        assert forall|i: int| #![trigger s.live[i]] 0 <= i < s.live.len() implies
                            engine::has_ntfs_volume(next, s.live[i]) by {
                            lemma_ntfs_replaced(volumes, kept, s.live[i]);
                        }
                        assert forall|i: int| #![trigger s.queue[i]] 0 <= i < s.queue.len() implies
                            engine::has_ntfs_volume(next, s.queue[i]) by {
                            lemma_ntfs_replaced(volumes, kept, s.queue[i]);
                        }
                    },
                },
                None => {
                    lemma_listens_on(s.passed(), volumes);
                },
            }
        },
        EventModel::Walked(m) => if s.phase is Walk && 0 <= s.at < s.walks.len() {
            lemma_listens_on(s.passed(), volumes.push(m));
        },
        EventModel::Saved => if s.phase is Save {
            lemma_ntfs_letters(volumes);
            lemma_listens_on(s.listening(volumes), volumes);
        },
        EventModel::Journal(_) => if s.phase is Listen && more {
            lemma_listens_on(s.passed(), volumes);
        },
        EventModel::Listening => if s.phase is Listen && more {
            let next = SessionModel { live: s.live.push(s.queue[s.at]), ..s.passed() };
            assert forall|i: int| #![trigger next.live[i]] 0 <= i < next.live.len() implies
                engine::has_ntfs_volume(volumes, next.live[i]) by {
                if i < s.live.len() {
                    assert(next.live[i] == s.live[i]);
                } else {
                    assert(next.live[i] == s.queue[s.at]);
                }
            }
            lemma_listens_on(next, volumes);
        },
        EventModel::Begin => {},
    }
}

proof fn lemma_place_stays(s: SessionModel, volumes: Seq<VolumeModel>)
    requires
        s.at >= 0,
    ensures
        advance(s, volumes).0.at >= 0,
        advance(s, volumes).0.survey == s.survey,
    decreases s.left(), s.queue.len() - s.at,
{
    let more = 0 <= s.at < s.queue.len();
    match s.phase {
        Phase::Upgrade => if more && engine::has_ntfs_volume(volumes, s.queue[s.at]) {
            lemma_place_stays(s.passed(), volumes);
        } else if !more && !s.upgraded {
            lemma_place_stays(s.listening(volumes), volumes);
        },
        Phase::Build => if !more {
            lemma_place_stays(s.walking(), volumes);
        },
        Phase::Listen => if more && engine::volume_from(volumes, s.queue[s.at], 0) is None {
            lemma_place_stays(s.passed(), volumes);
        },
        _ => {},
    }
}

proof fn lemma_step_place(s: SessionModel, volumes: Seq<VolumeModel>, event: EventModel)
    requires
        s.at >= 0,
    ensures
        step_of(s, volumes, event).0.at >= 0,
        step_of(s, volumes, event).0.survey == s.survey,
{
    lemma_place_stays(s, volumes);
    lemma_place_stays(s.passed(), volumes);
    lemma_place_stays(s.listening(volumes), volumes);
    let more = 0 <= s.at < s.queue.len();
    match event {
        EventModel::Rebuilt(Some(m)) => if more {
            lemma_place_stays(
                SessionModel { upgraded: true, ..s.passed() },
                engine::without(volumes, s.queue[s.at], true).push(filtered(m, s.survey.excluded)),
            );
            lemma_place_stays(
                SessionModel { built: s.built.push(s.queue[s.at]), ..s.passed() },
                volumes.push(filtered(m, s.survey.excluded)),
            );
        },
        EventModel::Walked(m) => {
            lemma_place_stays(s.passed(), volumes.push(m));
        },
        EventModel::Listening => if more {
            lemma_place_stays(
                SessionModel { live: s.live.push(s.queue[s.at]), ..s.passed() },
                volumes,
            );
        },
        _ => {},
    }
}

/// At every time of a session, each drive whose journal is listened to has an NTFS volume in the
/// index, and without the rights to read journals there is none.
pub proof fn law_live_drives_are_ntfs(
    survey: SurveyModel,
    anew: bool,
    s: SessionModel,
    volumes: Seq<VolumeModel>,
    events: Seq<EventModel>,
)
    requires
        s == snapshot_session(survey) || s == scratch_session(survey, anew),
        all_belong(s, volumes, events),
    ensures
        ({
            let (now, there) = after_events(s, volumes, events);
            &&& all_ntfs(now.live, there)
            &&& !survey.is_admin ==> now.live.len() == 0
        }),
{
    lemma_session_listens(survey, anew, s, volumes, events);
}

proof fn lemma_session_listens(
    survey: SurveyModel,
    anew: bool,
    s: SessionModel,
    volumes: Seq<VolumeModel>,
    events: Seq<EventModel>,
)
    requires
        s == snapshot_session(survey) || s == scratch_session(survey, anew),
        all_belong(s, volumes, events),
    ensures
        listens_rightly(
            after_events(s, volumes, events).0,
            after_events(s, volumes, events).1,
        ),
        after_events(s, volumes, events).0.survey == survey,
        after_events(s, volumes, events).0.at >= 0,
    decreases events.len(),
{
    if events.len() > 0 {
        lemma_session_listens(survey, anew, s, volumes, events.drop_last());
        let (before, there) = after_events(s, volumes, events.drop_last());
        law_step_listens_rightly(before, there, events.last());
        lemma_step_place(before, there, events.last());
    }
}

/// None of the letters is disabled.
pub open spec fn none_of(letters: Seq<char>, disabled: Seq<char>) -> bool {
    forall|i: int| #![trigger letters[i]] 0 <= i < letters.len() ==> !disabled.contains(letters[i])
}

/// No volume has a disabled letter.
pub open spec fn none_disabled(volumes: Seq<VolumeModel>, disabled: Seq<char>) -> bool {
    forall|v: int| #![trigger volumes[v]]
        0 <= v < volumes.len() ==> !disabled.contains(volumes[v].letter)
}

/// A session that indexes everything has not touched a disabled drive, and is not about to.
pub open spec fn spares_disabled(s: SessionModel, volumes: Seq<VolumeModel>) -> bool {
    let disabled = s.survey.disabled;
    &&& !(s.phase is Upgrade)
    &&& none_disabled(volumes, disabled)
    &&& s.phase is Build || s.phase is Listen ==> none_of(s.queue, disabled)
    &&& s.phase is Walk ==> forall|i: int| #![trigger s.walks[i]]
        0 <= i < s.walks.len() ==> !disabled.contains(s.walks[i].0)
}

proof fn lemma_enabled(drives: Seq<char>, disabled: Seq<char>)
    ensures
        none_of(enabled_of(drives, disabled), disabled),
    decreases drives.len(),
{
    if drives.len() > 0 {
        lemma_enabled(drives.drop_last(), disabled);
    }
}

proof fn lemma_walked_enabled(
    n: int,
    present: Seq<char>,
    built: Seq<char>,
    disabled: Seq<char>,
    is_admin: bool,
    fixed: Seq<char>,
)
    ensures
        none_of(
            engine::walked_of(n, present, built, disabled, is_admin, fixed),
            disabled,
        ),
    decreases n,
{
    if n > 0 {
        lemma_walked_enabled(n - 1, present, built, disabled, is_admin, fixed);
    }
}

proof fn lemma_walks_enabled(
    letters: Seq<char>,
    is_admin: bool,
    degraded: Seq<Seq<char>>,
    disabled: Seq<char>,
)
    requires
        none_of(letters, disabled),
    ensures
        forall|i: int| #![trigger walks_of(letters, is_admin, degraded)[i]]
            0 <= i < walks_of(letters, is_admin, degraded).len() ==> !disabled.contains(
                walks_of(letters, is_admin, degraded)[i].0,
            ),
    decreases letters.len(),
{
    if letters.len() > 0 {
        let rest = letters.drop_last();
        assert forall|i: int| #![trigger rest[i]] 0 <= i < rest.len() implies !disabled.contains(
            rest[i],
        ) by {
            assert(rest[i] == letters[i]);
        }
        lemma_walks_enabled(rest, is_admin, degraded, disabled);
        let fewer = walks_of(rest, is_admin, degraded);
        let all = walks_of(letters, is_admin, degraded);
        assert(!disabled.contains(letters[letters.len() - 1]));
        assert forall|i: int| #![trigger all[i]] 0 <= i < all.len() implies !disabled.contains(
            all[i].0,
        ) by {
            if i < fewer.len() {
                assert(all[i] == fewer[i]);
            } else {
                assert(all[i].0 == letters.last());
            }
        }
    }
}

proof fn lemma_listen_enabled(volumes: Seq<VolumeModel>, disabled: Seq<char>)
    requires
        none_disabled(volumes, disabled),
    ensures
        none_of(engine::ntfs_letters_of(volumes), disabled),
{
    lemma_ntfs_letters(volumes);
    let letters = engine::ntfs_letters_of(volumes);
    assert forall|i: int| #![trigger letters[i]] 0 <= i < letters.len() implies !disabled.contains(
        letters[i],
    ) by {
        assert(engine::has_ntfs_volume(volumes, letters[i]));
        let v = choose|v: int| #![trigger volumes[v]]
            0 <= v < volumes.len() && volumes[v].letter == letters[i] && volumes[v].is_ntfs;
        assert(!disabled.contains(volumes[v].letter));
    }
}

proof fn lemma_spares_on(s: SessionModel, volumes: Seq<VolumeModel>)
    requires
        spares_disabled(s, volumes),
    ensures
        spares_disabled(advance(s, volumes).0, advance(s, volumes).1),
    decreases s.left(), s.queue.len() - s.at,
{
    let more = 0 <= s.at < s.queue.len();
    let sv = s.survey;
    match s.phase {
        Phase::Build => if !more {
            let letters = engine::walked_of(
                26,
                sv.present,
                s.built,
                sv.disabled,
                sv.is_admin,
                sv.fixed,
            );
            lemma_walked_enabled(26, sv.present, s.built, sv.disabled, sv.is_admin, sv.fixed);
            lemma_walks_enabled(letters, sv.is_admin, sv.degraded, sv.disabled);
            lemma_spares_on(s.walking(), volumes);
        },
        Phase::Walk => {
            let marked = engine::marked(volumes, sv.menu);
            assert forall|v: int| #![trigger marked[v]] 0 <= v < marked.len() implies
                !sv.disabled.contains(marked[v].letter) by {
                assert(!sv.disabled.contains(volumes[v].letter));
            }
        },
        Phase::Listen => if more && engine::volume_from(volumes, s.queue[s.at], 0) is None {
            lemma_spares_on(s.passed(), volumes);
        },
        _ => {},
    }
}

proof fn lemma_none_disabled_push(volumes: Seq<VolumeModel>, m: VolumeModel, disabled: Seq<char>)
    requires
        none_disabled(volumes, disabled),
        !disabled.contains(m.letter),
    ensures
        none_disabled(volumes.push(m), disabled),
{
    let all = volumes.push(m);
    assert forall|v: int| #![trigger all[v]] 0 <= v < all.len() implies !disabled.contains(
        all[v].letter,
    ) by {
        if v < volumes.len() {
            assert(all[v] == volumes[v]);
        }
    }
}

/// Every step of a session that indexes everything spares the disabled drives.
pub proof fn law_step_spares_disabled(
    s: SessionModel,
    volumes: Seq<VolumeModel>,
    event: EventModel,
)
    requires
        spares_disabled(s, volumes),
        belongs(s, event),
        s.at >= 0,
    ensures
        spares_disabled(step_of(s, volumes, event).0, step_of(s, volumes, event).1),
{
    let more = 0 <= s.at < s.queue.len();
    let disabled = s.survey.disabled;
    lemma_spares_on(s, volumes);
    match event {
        EventModel::Rebuilt(rebuilt) => if more && (s.phase is Build || s.phase is Listen) {
            let d = s.queue[s.at];
            match rebuilt {
                Some(m) => {
                    let kept = filtered(m, s.survey.excluded);
                    engine::lemma_removed_letter(
                        m,
                        engine::excluded_frns(m, s.survey.excluded, m.entries.len() as int),
                    );
                    if s.phase is Build {
                        lemma_none_disabled_push(volumes, kept, disabled);
                        lemma_spares_on(
                            SessionModel { built: s.built.push(d), ..s.passed() },
                            volumes.push(kept),
                        );
                    } else {
                        let others = engine::without(volumes, d, false);
                        assert forall|v: int| #![trigger others[v]] 0 <= v < others.len() implies
                            !disabled.contains(others[v].letter) by {
                            lemma_without_kept(volumes, d, false, others[v]);
                            assert(others.contains(others[v]));
                            let i = choose|i: int| 0 <= i < volumes.len() && volumes[i] == others[v];
                            assert(!disabled.contains(volumes[i].letter));
                        }
                        lemma_none_disabled_push(others, kept, disabled);
                    }
                },
                None => {
                    lemma_spares_on(s.passed(), volumes);
                },
            }
        },
        EventModel::Walked(m) => if s.phase is Walk && 0 <= s.at < s.walks.len() {
            assert(!disabled.contains(s.walks[s.at].0));
            lemma_none_disabled_push(volumes, m, disabled);
            lemma_spares_on(s.passed(), volumes.push(m));
        },
        EventModel::Saved => if s.phase is Save {
            lemma_listen_enabled(volumes, disabled);
            lemma_spares_on(s.listening(volumes), volumes);
        },
        EventModel::Journal(_) => if s.phase is Listen && more {
            lemma_spares_on(s.passed(), volumes);
        },
        EventModel::Listening => if s.phase is Listen && more {
            lemma_spares_on(
                SessionModel { live: s.live.push(s.queue[s.at]), ..s.passed() },
                volumes,
            );
        },
        EventModel::Begin => {},
    }
}

/// At every time of a session that builds the index from nothing, no volume has a disabled letter.
pub proof fn law_disabled_drives_are_left_out(
    survey: SurveyModel,
    anew: bool,
    events: Seq<EventModel>,
)
    requires
        all_belong(scratch_session(survey, anew), seq![], events),
    ensures
        none_disabled(
            after_events(scratch_session(survey, anew), seq![], events).1,
            survey.disabled,
        ),
{
    lemma_session_spares(survey, anew, events);
}

proof fn lemma_session_spares(survey: SurveyModel, anew: bool, events: Seq<EventModel>)
    requires
        all_belong(scratch_session(survey, anew), seq![], events),
    ensures
        spares_disabled(
            after_events(scratch_session(survey, anew), seq![], events).0,
            after_events(scratch_session(survey, anew), seq![], events).1,
        ),
        after_events(scratch_session(survey, anew), seq![], events).0.survey == survey,
        after_events(scratch_session(survey, anew), seq![], events).0.at >= 0,
    decreases events.len(),
{
    let s = scratch_session(survey, anew);
    if events.len() == 0 {
        lemma_enabled(survey.candidates, survey.disabled);
    } else {
        lemma_session_spares(survey, anew, events.drop_last());
        let (before, there) = after_events(s, seq![], events.drop_last());
        law_step_spares_disabled(before, there, events.last());
        lemma_step_place(before, there, events.last());
    }
}

/// No volume holds an entry that lies in an excluded directory.
pub open spec fn all_spared(volumes: Seq<VolumeModel>, dirs: Seq<Seq<char>>) -> bool {
    forall|v: int| #![trigger volumes[v]]
        0 <= v < volumes.len() ==> engine::none_excluded(volumes[v], dirs)
}

/// What an event brings can be freed of excluded directories: a volume that was indexed by its file
/// table holds files with numbers, none too deep to have its path followed; one that was walked
/// holds nothing of them.
pub open spec fn is_clean(event: EventModel, dirs: Seq<Seq<char>>) -> bool {
    match event {
        EventModel::Rebuilt(Some(m)) => engine::is_table(m),
        EventModel::Walked(m) => engine::none_excluded(m, dirs),
        _ => true,
    }
}

proof fn lemma_filtered_spared(m: VolumeModel, dirs: Seq<Seq<char>>)
    requires
        engine::is_table(m),
        engine::all_bare(dirs),
    ensures
        engine::none_excluded(filtered(m, dirs), dirs),
{
    if dirs.len() > 0 {
        engine::law_filter_leaves_none_excluded(m, dirs);
    }
}

proof fn lemma_marked_spared(
    volumes: Seq<VolumeModel>,
    menu: Seq<Seq<Seq<char>>>,
    dirs: Seq<Seq<char>>,
)
    requires
        all_spared(volumes, dirs),
    ensures
        all_spared(engine::marked(volumes, menu), dirs),
{
    let marked = engine::marked(volumes, menu);
    assert forall|v: int| #![trigger marked[v]] 0 <= v < marked.len() implies engine::none_excluded(
        marked[v],
        dirs,
    ) by {
        let m = volumes[v];
        let n = marked[v];
        assert(engine::none_excluded(m, dirs));
        assert forall|s: int| #![trigger n.entries[s]] 0 <= s < n.entries.len() implies
            !engine::lies_in_any(n.full_path(s), dirs) by {
            laws::law_mark_keeps_paths(m, menu, s);
            assert(!engine::lies_in_any(m.full_path(s), dirs)) by {
                assert(m.entries[s].parent == n.entries[s].parent);
            }
        }
    }
}

proof fn lemma_all_spared_push(volumes: Seq<VolumeModel>, m: VolumeModel, dirs: Seq<Seq<char>>)
    requires
        all_spared(volumes, dirs),
        engine::none_excluded(m, dirs),
    ensures
        all_spared(volumes.push(m), dirs),
{
    let all = volumes.push(m);
    assert forall|v: int| #![trigger all[v]] 0 <= v < all.len() implies engine::none_excluded(
        all[v],
        dirs,
    ) by {
        if v < volumes.len() {
            assert(all[v] == volumes[v]);
        }
    }
}

proof fn lemma_all_spared_without(
    volumes: Seq<VolumeModel>,
    letter: char,
    walked_only: bool,
    dirs: Seq<Seq<char>>,
)
    requires
        all_spared(volumes, dirs),
    ensures
        all_spared(engine::without(volumes, letter, walked_only), dirs),
{
    let others = engine::without(volumes, letter, walked_only);
    assert forall|v: int| #![trigger others[v]] 0 <= v < others.len() implies engine::none_excluded(
        others[v],
        dirs,
    ) by {
        lemma_without_kept(volumes, letter, walked_only, others[v]);
        assert(others.contains(others[v]));
        let i = choose|i: int| 0 <= i < volumes.len() && volumes[i] == others[v];
        assert(engine::none_excluded(volumes[i], dirs));
    }
}

proof fn lemma_spared_on(s: SessionModel, volumes: Seq<VolumeModel>, dirs: Seq<Seq<char>>)
    requires
        all_spared(volumes, dirs),
    ensures
        all_spared(advance(s, volumes).1, dirs),
    decreases s.left(), s.queue.len() - s.at,
{
    let more = 0 <= s.at < s.queue.len();
    lemma_marked_spared(volumes, s.survey.menu, dirs);
    match s.phase {
        Phase::Upgrade => if more && engine::has_ntfs_volume(volumes, s.queue[s.at]) {
            lemma_spared_on(s.passed(), volumes, dirs);
        } else if !more && !s.upgraded {
            lemma_spared_on(s.listening(volumes), volumes, dirs);
        },
        Phase::Build => if !more {
            lemma_spared_on(s.walking(), volumes, dirs);
        },
        Phase::Listen => if more && engine::volume_from(volumes, s.queue[s.at], 0) is None {
            lemma_spared_on(s.passed(), volumes, dirs);
        },
        _ => {},
    }
}

/// Every step keeps it so that no volume holds an entry that lies in an excluded directory.
pub proof fn law_step_spares_excluded(
    s: SessionModel,
    volumes: Seq<VolumeModel>,
    event: EventModel,
)
    requires
        engine::all_bare(s.survey.excluded),
        all_spared(volumes, s.survey.excluded),
        is_clean(event, s.survey.excluded),
    ensures
        all_spared(step_of(s, volumes, event).1, s.survey.excluded),
{
    let more = 0 <= s.at < s.queue.len();
    let dirs = s.survey.excluded;
    lemma_spared_on(s, volumes, dirs);
    match event {
        EventModel::Rebuilt(rebuilt) => if more && (s.phase is Upgrade || s.phase is Build
            || s.phase is Listen) {
            let d = s.queue[s.at];
            match rebuilt {
                Some(m) => {
                    let kept = filtered(m, dirs);
                    lemma_filtered_spared(m, dirs);
                    lemma_all_spared_without(volumes, d, s.phase is Upgrade, dirs);
                    lemma_all_spared_push(
                        engine::without(volumes, d, s.phase is Upgrade),
                        kept,
                        dirs,
                    );
                    lemma_all_spared_push(volumes, kept, dirs);
                    if s.phase is Upgrade {
                        lemma_spared_on(
                            SessionModel { upgraded: true, ..s.passed() },
                            engine::without(volumes, d, true).push(kept),
                            dirs,
                        );
                    } else if s.phase is Build {
                        lemma_spared_on(
                            SessionModel { built: s.built.push(d), ..s.passed() },
                            volumes.push(kept),
                            dirs,
                        );
                    }
                },
                None => {
                    lemma_spared_on(s.passed(), volumes, dirs);
                },
            }
        },
        EventModel::Walked(m) => if s.phase is Walk && 0 <= s.at < s.walks.len() {
            lemma_all_spared_push(volumes, m, dirs);
            lemma_spared_on(s.passed(), volumes.push(m), dirs);
        },
        EventModel::Saved => if s.phase is Save {
            lemma_spared_on(s.listening(volumes), volumes, dirs);
        },
        EventModel::Journal(_) => if s.phase is Listen && more {
            lemma_spared_on(s.passed(), volumes, dirs);
        },
        EventModel::Listening => if s.phase is Listen && more {
            lemma_spared_on(
                SessionModel { live: s.live.push(s.queue[s.at]), ..s.passed() },
                volumes,
                dirs,
            );
        },
        EventModel::Begin => {},
    }
}

/// At every time of a session that builds the index from nothing, with excluded directories as they
/// are compared, no volume holds an entry that lies in one of them.
pub proof fn law_excluded_directories_are_left_out(
    survey: SurveyModel,
    anew: bool,
    events: Seq<EventModel>,
)
    requires
        engine::all_bare(survey.excluded),
        forall|i: int| #![trigger events[i]]
            0 <= i < events.len() ==> is_clean(events[i], survey.excluded),
    ensures
        all_spared(
            after_events(scratch_session(survey, anew), seq![], events).1,
            survey.excluded,
        ),
{
    lemma_session_spared(survey, anew, events);
}

proof fn lemma_session_spared(survey: SurveyModel, anew: bool, events: Seq<EventModel>)
    requires
        engine::all_bare(survey.excluded),
        forall|i: int| #![trigger events[i]]
            0 <= i < events.len() ==> is_clean(events[i], survey.excluded),
    ensures
        all_spared(
            after_events(scratch_session(survey, anew), seq![], events).1,
            survey.excluded,
        ),
        after_events(scratch_session(survey, anew), seq![], events).0.survey == survey,
        after_events(scratch_session(survey, anew), seq![], events).0.at >= 0,
    decreases events.len(),
{
    let s = scratch_session(survey, anew);
    if events.len() > 0 {
        let rest = events.drop_last();
        assert forall|i: int| #![trigger rest[i]] 0 <= i < rest.len() implies is_clean(
            rest[i],
            survey.excluded,
        ) by {
            assert(rest[i] == events[i]);
        }
        lemma_session_spared(survey, anew, rest);
        let (before, there) = after_events(s, seq![], rest);
        assert(is_clean(events[events.len() - 1], survey.excluded));
        law_step_spares_excluded(before, there, events.last());
        lemma_step_place(before, there, events.last());
    }
}

/// At every time of a session that builds the index anew, with the excluded directories of some
/// settings: no volume has a disabled letter, none holds an entry that lies in an excluded
/// directory, each drive whose journal is listened to has an NTFS volume, and without the rights to
/// read journals there is none.
pub proof fn law_built_anew(survey: SurveyModel, dirs: Seq<Seq<char>>, events: Seq<EventModel>)
    requires
        survey.excluded == settings::dir_keys(dirs),
        all_belong(scratch_session(survey, true), seq![], events),
        forall|i: int| #![trigger events[i]]
            0 <= i < events.len() ==> is_clean(events[i], survey.excluded),
    ensures
        ({
            let (now, there) = after_events(scratch_session(survey, true), seq![], events);
            &&& none_disabled(there, survey.disabled)
            &&& all_spared(there, settings::dir_keys(dirs))
            &&& all_ntfs(now.live, there)
            &&& !survey.is_admin ==> now.live.len() == 0
        }),
{
    settings::law_dir_keys_are_bare(dirs);
    law_disabled_drives_are_left_out(survey, true, events);
    law_excluded_directories_are_left_out(survey, true, events);
    law_live_drives_are_ntfs(survey, true, scratch_session(survey, true), seq![], events);
}

} // verus!
