//! Fetching the model: what the manifest asks for, what is on disk already, and what to do next.

use crate::number;
use crate::settings;
use crate::text;
use vstd::prelude::*;

verus! {

/// How often a file is tried before the download is given up.
pub const MAX_ATTEMPTS: usize = 6;

/// How long to wait before a file is tried again, in seconds.
pub const RETRY_SECS: u64 = 3;

/// Bytes between two updates of the progress bar.
pub const BAR_STEP: u64 = 1048576;

/// Bytes between two lines of the log.
pub const LOG_STEP: u64 = 16777216;

/// Every file that makes up the model.
pub open spec fn model_file_names() -> Seq<Seq<char>> {
    seq![
        "model.bin"@,
        "tokenizer.json"@,
        "vocabulary.json"@,
        "config.json"@,
        "preprocessor_config.json"@,
    ]
}

/// Every file that makes up the model.
pub fn model_files() -> (r: Vec<String>)
    ensures
        text::texts(r@) == model_file_names(),
{
    let mut out: Vec<String> = Vec::new();
    out.push("model.bin".to_owned());
    out.push("tokenizer.json".to_owned());
    out.push("vocabulary.json".to_owned());
    out.push("config.json".to_owned());
    out.push("preprocessor_config.json".to_owned());
    assert(text::texts(out@) =~= model_file_names());
    out
}

/// The three places that the model can be in.
#[derive(Clone, Copy, PartialEq, Eq, Structural)]
pub enum ModelPlace {
    /// Where the environment says.
    Environment,
    /// In the working directory.
    Development,
    /// In the application's data directory.
    AppData,
}

/// Where the model is: the environment's directory where it names one, the working directory's
/// where that has a model in it, else the application's.
pub fn model_place(named: bool, in_working_dir: bool) -> (r: ModelPlace)
    ensures
        r == if named {
            ModelPlace::Environment
        } else if in_working_dir {
            ModelPlace::Development
        } else {
            ModelPlace::AppData
        },
{
    if named {
        ModelPlace::Environment
    } else if in_working_dir {
        ModelPlace::Development
    } else {
        ModelPlace::AppData
    }
}

/// Whether there is a model to load, from the sizes of its files: none is missing or empty.
pub fn model_ready(sizes: &Vec<u64>) -> (r: bool)
    ensures
        r == forall|i: int| 0 <= i < sizes@.len() ==> #[trigger] sizes@[i] > 0,
{
    for i in 0..sizes.len()
        invariant
            forall|k: int| 0 <= k < i ==> #[trigger] sizes@[k] > 0,
    {
        if sizes[i] == 0 {
            assert(!(sizes@[i as int] > 0));
            return false;
        }
    }
    true
}

/// One entry of the manifest, as far as it could be read.
pub struct ManifestRow {
    pub path: Option<String>,
    pub size: Option<u64>,
    pub sha: Option<String>,
}

/// A file to have: its name, its size in bytes, and its checksum where it has one.
pub struct Want {
    pub name: String,
    pub size: u64,
    pub sha: Option<String>,
}

/// A file to have.
pub struct Wanted {
    pub name: Seq<char>,
    pub size: nat,
    pub sha: Option<Seq<char>>,
}

impl Want {
    pub open spec fn wanted(self) -> Wanted {
        Wanted {
            name: self.name@,
            size: self.size as nat,
            sha: settings::chars_of_string(self.sha),
        }
    }
}

pub open spec fn all_wanted(wants: Seq<Want>) -> Seq<Wanted> {
    Seq::new(wants.len(), |i: int| wants[i].wanted())
}

/// What is wrong with a manifest.
pub enum ManifestError {
    /// It cannot be read at all.
    Unreadable,
    /// A file is not in it.
    Missing(String),
    /// A file has no size in it.
    NoSize(String),
}

/// The first entry for a name.
pub open spec fn row_for(rows: Seq<ManifestRow>, name: Seq<char>) -> Option<ManifestRow>
    decreases rows.len(),
{
    if rows.len() == 0 {
        None
    } else if settings::chars_of_string(rows[0].path) == Some(name) {
        Some(rows[0])
    } else {
        row_for(rows.skip(1), name)
    }
}

/// The manifest says which size the file has.
pub open spec fn has_size(rows: Seq<ManifestRow>, name: Seq<char>) -> bool {
    row_for(rows, name) matches Some(row) && row.size.is_some()
}

/// What the manifest says of a file that it has a size for.
pub open spec fn wanted_from(rows: Seq<ManifestRow>, name: Seq<char>) -> Wanted {
    let row = row_for(rows, name).unwrap();
    Wanted { name, size: row.size.unwrap() as nat, sha: settings::chars_of_string(row.sha) }
}

/// The files to have are the given ones, with what the manifest says of each; or the first of them
/// that it says too little of is the error.
pub open spec fn planned(
    r: Result<Vec<Want>, ManifestError>,
    rows: Seq<ManifestRow>,
    names: Seq<Seq<char>>,
) -> bool {
    match r {
        Ok(wants) => {
            &&& forall|i: int| 0 <= i < names.len() ==> has_size(rows, #[trigger] names[i])
            &&& wants@.len() == names.len()
            &&& forall|i: int|
                0 <= i < names.len() ==> (#[trigger] wants@[i]).wanted() == wanted_from(
                    rows,
                    names[i],
                )
        },
        Err(ManifestError::Unreadable) => false,
        Err(ManifestError::Missing(name)) => exists|i: int|
            {
                &&& 0 <= i < names.len()
                &&& #[trigger] names[i] == name@
                &&& row_for(rows, name@).is_none()
                &&& forall|k: int| 0 <= k < i ==> has_size(rows, #[trigger] names[k])
            },
        Err(ManifestError::NoSize(name)) => exists|i: int|
            {
                &&& 0 <= i < names.len()
                &&& #[trigger] names[i] == name@
                &&& row_for(rows, name@) matches Some(row)
                &&& row.size.is_none()
                &&& forall|k: int| 0 <= k < i ==> has_size(rows, #[trigger] names[k])
            },
    }
}

/// The position of the first entry for a name.
fn find_row(rows: &Vec<ManifestRow>, name: &str) -> (r: Option<usize>)
    ensures
        match r {
            Some(i) => i < rows@.len() && row_for(rows@, name@) == Some(rows@[i as int]),
            None => row_for(rows@, name@).is_none(),
        },
{
    let mut i: usize = 0;
    assert(rows@.skip(0) =~= rows@);
    while i < rows.len()
        invariant
            i <= rows@.len(),
            row_for(rows@, name@) == row_for(rows@.skip(i as int), name@),
        decreases rows@.len() - i,
    {
        let ghost rest = rows@.skip(i as int);
        assert(rest[0] == rows@[i as int]);
        match &rows[i].path {
            Some(p) => {
                if text::same_text(p.as_str(), name) {
                    return Some(i);
                }
            },
            None => {},
        }
        assert(rest.skip(1) =~= rows@.skip(i + 1));
        i = i + 1;
    }
    None
}

/// What the manifest asks for: size and checksum of every file of the model.
pub fn plan(rows: &Vec<ManifestRow>) -> (r: Result<Vec<Want>, ManifestError>)
    ensures
        planned(r, rows@, model_file_names()),
{
    let files = model_files();
    let ghost names = model_file_names();
    let mut wants: Vec<Want> = Vec::new();
    for i in 0..files.len()
        invariant
            text::texts(files@) == names,
            names == model_file_names(),
            wants@.len() == i,
            forall|k: int| 0 <= k < i ==> has_size(rows@, #[trigger] names[k]),
            forall|k: int|
                0 <= k < i ==> (#[trigger] wants@[k]).wanted() == wanted_from(rows@, names[k]),
    {
        assert(names[i as int] == files@[i as int]@);
        let name: &String = &files[i];
        match find_row(rows, name.as_str()) {
            None => {
                return Err(ManifestError::Missing(name.clone()));
            },
            Some(at) => match rows[at].size {
                None => {
                    return Err(ManifestError::NoSize(name.clone()));
                },
                Some(size) => {
                    let sha: Option<String> = match &rows[at].sha {
                        Some(s) => Some(s.clone()),
                        None => None,
                    };
                    let want = Want { name: name.clone(), size, sha };
                    assert(has_size(rows@, names[i as int]));
                    wants.push(want);
                },
            },
        }
    }
    Ok(wants)
}

/// The bytes of all the files together.
pub open spec fn total_bytes(wants: Seq<Wanted>) -> nat
    decreases wants.len(),
{
    if wants.len() == 0 {
        0
    } else {
        total_bytes(wants.drop_last()) + wants.last().size
    }
}

/// The bytes of all the files that are on disk already, counting no file for more than it has.
pub open spec fn bytes_had(wants: Seq<Wanted>, sizes: Seq<u64>) -> nat
    decreases wants.len(),
{
    if wants.len() == 0 {
        0
    } else {
        let size = wants.last().size;
        let have = sizes[wants.len() - 1] as nat;
        bytes_had(wants.drop_last(), sizes) + if have <= size {
            have
        } else {
            size
        }
    }
}

proof fn lemma_total_grows(wants: Seq<Wanted>, n: int)
    requires
        0 <= n <= wants.len(),
    ensures
        total_bytes(wants.take(n)) <= total_bytes(wants),
    decreases wants.len() - n,
{
    if n < wants.len() {
        assert(wants.take(n + 1).drop_last() =~= wants.take(n));
        lemma_total_grows(wants, n + 1);
    } else {
        assert(wants.take(n) =~= wants);
    }
}

/// What is on disk already is never more than there is to have.
pub proof fn law_had_within_total(wants: Seq<Wanted>, sizes: Seq<u64>)
    requires
        wants.len() <= sizes.len(),
    ensures
        bytes_had(wants, sizes) <= total_bytes(wants),
    decreases wants.len(),
{
    if wants.len() > 0 {
        law_had_within_total(wants.drop_last(), sizes);
    }
}

/// The bytes of all the files together; `None` where that is no 64-bit number.
pub fn total_size(wants: &Vec<Want>) -> (r: Option<u64>)
    ensures
        r.is_some() == (total_bytes(all_wanted(wants@)) <= u64::MAX),
        r.is_some() ==> r.unwrap() == total_bytes(all_wanted(wants@)),
{
    let ghost all = all_wanted(wants@);
    let mut sum: u64 = 0;
    assert(all.take(0).len() == 0);
    for i in 0..wants.len()
        invariant
            all == all_wanted(wants@),
            sum == total_bytes(all.take(i as int)),
    {
        proof {
            assert(all.take(i + 1).drop_last() =~= all.take(i as int));
            lemma_total_grows(all, i + 1);
        }
        match sum.checked_add(wants[i].size) {
            Some(s) => {
                sum = s;
            },
            None => {
                return None;
            },
        }
    }
    assert(all.take(all.len() as int) =~= all);
    Some(sum)
}

/// Whether every file is on disk at its full size.
pub fn complete(wants: &Vec<Want>, sizes: &Vec<u64>) -> (r: bool)
    requires
        wants@.len() == sizes@.len(),
    ensures
        r == forall|i: int| 0 <= i < wants@.len() ==> #[trigger] wants@[i].size == sizes@[i],
{
    for i in 0..wants.len()
        invariant
            wants@.len() == sizes@.len(),
            forall|k: int| 0 <= k < i ==> #[trigger] wants@[k].size == sizes@[k],
    {
        if wants[i].size != sizes[i] {
            assert(!(wants@[i as int].size == sizes@[i as int]));
            return false;
        }
    }
    true
}

/// The bytes that are on disk already.
pub fn already(wants: &Vec<Want>, sizes: &Vec<u64>) -> (r: u64)
    requires
        wants@.len() == sizes@.len(),
        total_bytes(all_wanted(wants@)) <= u64::MAX,
    ensures
        r == bytes_had(all_wanted(wants@), sizes@),
        r <= total_bytes(all_wanted(wants@)),
{
    let ghost all = all_wanted(wants@);
    let mut sum: u64 = 0;
    assert(all.take(0).len() == 0);
    for i in 0..wants.len()
        invariant
            all == all_wanted(wants@),
            wants@.len() == sizes@.len(),
            total_bytes(all) <= u64::MAX,
            sum == bytes_had(all.take(i as int), sizes@),
    {
        let have: u64 = if sizes[i] <= wants[i].size {
            sizes[i]
        } else {
            wants[i].size
        };
        proof {
            assert(all.take(i + 1).drop_last() =~= all.take(i as int));
            lemma_total_grows(all, i + 1);
            law_had_within_total(all.take(i + 1), sizes@);
        }
        sum = sum + have;
    }
    proof {
        assert(all.take(all.len() as int) =~= all);
        law_had_within_total(all, sizes@);
    }
    sum
}

/// Where the download of one file is.
#[derive(Clone, Copy, PartialEq, Eq, Structural)]
pub enum Phase {
    /// The file is about to be tried.
    Attempt,
    /// A transfer is running.
    Transfer,
    /// The transfer is over, and the size is to be checked.
    Check,
    /// The checksum is being computed.
    Hashing,
    /// Every file is there, or the download was given up.
    Over,
}

/// Why the download was given up.
#[derive(Clone, Copy, PartialEq, Eq, Structural)]
pub enum Failure {
    /// Every attempt failed.
    GaveUp,
    /// The file has another size than it should.
    Incomplete { got: u64 },
    /// The file has another checksum than it should: it is deleted.
    Mismatch,
}

/// What to do next about the download.
#[derive(Clone, Copy, PartialEq, Eq, Structural)]
pub enum FetchAction {
    /// Look how much of the current file is on disk.
    Measure,
    /// Transfer the current file from what is on disk, after deleting it where it is junk.
    Transfer { discard: bool },
    /// Attempt `attempt` failed: wait, then look again how much is on disk.
    Retry { attempt: usize },
    /// Compute the checksum of the current file.
    Hash,
    /// Every file is there.
    Done,
    Fail(Failure),
}

/// A download between two actions.
pub struct FetchState {
    pub wants: Seq<Wanted>,
    pub index: nat,
    pub attempt: nat,
    pub finished: nat,
    pub phase: Phase,
}

/// The current file is done with.
pub open spec fn next_file(s: FetchState) -> (FetchState, FetchAction) {
    let finished = s.finished + s.wants[s.index as int].size;
    if s.index + 1 < s.wants.len() {
        (
            FetchState { index: s.index + 1, attempt: 1, finished, phase: Phase::Attempt, ..s },
            FetchAction::Measure,
        )
    } else {
        (
            FetchState { index: s.index + 1, attempt: 1, finished, phase: Phase::Over, ..s },
            FetchAction::Done,
        )
    }
}

/// The current file was found to have `have` bytes on disk.
pub open spec fn after_measure(s: FetchState, have: u64) -> (FetchState, FetchAction) {
    let want = s.wants[s.index as int];
    if s.phase == Phase::Attempt {
        if have == want.size {
            (FetchState { phase: Phase::Check, ..s }, FetchAction::Measure)
        } else {
            (
                FetchState { phase: Phase::Transfer, ..s },
                FetchAction::Transfer { discard: have > want.size },
            )
        }
    } else if have != want.size {
        (
            FetchState { phase: Phase::Over, ..s },
            FetchAction::Fail(Failure::Incomplete { got: have }),
        )
    } else if want.sha.is_some() {
        (FetchState { phase: Phase::Hashing, ..s }, FetchAction::Hash)
    } else {
        next_file(s)
    }
}

/// A transfer of the current file ended.
pub open spec fn after_transfer(s: FetchState, ok: bool) -> (FetchState, FetchAction) {
    if ok {
        (FetchState { phase: Phase::Check, ..s }, FetchAction::Measure)
    } else if s.attempt < MAX_ATTEMPTS {
        (
            FetchState { phase: Phase::Attempt, attempt: s.attempt + 1, ..s },
            FetchAction::Retry { attempt: s.attempt as usize },
        )
    } else {
        (FetchState { phase: Phase::Over, ..s }, FetchAction::Fail(Failure::GaveUp))
    }
}

/// The checksum of the current file is `actual`.
pub open spec fn after_hash(s: FetchState, actual: Seq<char>) -> (FetchState, FetchAction) {
    if s.wants[s.index as int].sha == Some(actual) {
        next_file(s)
    } else {
        (FetchState { phase: Phase::Over, ..s }, FetchAction::Fail(Failure::Mismatch))
    }
}

/// What holds of a download at any time.
pub open spec fn fetch_inv(s: FetchState) -> bool {
    &&& s.index <= s.wants.len()
    &&& s.phase != Phase::Over ==> s.index < s.wants.len()
    &&& 1 <= s.attempt <= MAX_ATTEMPTS
    &&& s.finished == total_bytes(s.wants.take(s.index as int))
    &&& total_bytes(s.wants) <= u64::MAX
    &&& s.phase == Phase::Hashing ==> s.wants[s.index as int].sha.is_some()
}

/// A running download.
pub struct Fetch {
    wants: Vec<Want>,
    index: usize,
    attempt: usize,
    finished: u64,
    phase: Phase,
}

impl View for Fetch {
    type V = FetchState;

    closed spec fn view(&self) -> FetchState {
        FetchState {
            wants: all_wanted(self.wants@),
            index: self.index as nat,
            attempt: self.attempt as nat,
            finished: self.finished as nat,
            phase: self.phase,
        }
    }
}

impl Fetch {
    pub open spec fn wf(self) -> bool {
        fetch_inv(self@)
    }

    /// A download of the given files, at least one; the first action is to measure the first.
    pub fn new(wants: Vec<Want>) -> (r: Self)
        requires
            wants@.len() > 0,
            total_bytes(all_wanted(wants@)) <= u64::MAX,
        ensures
            r.wf(),
            r@.wants == all_wanted(wants@),
            r@.index == 0,
            r@.attempt == 1,
            r@.finished == 0,
            r@.phase == Phase::Attempt,
    {
        assert(all_wanted(wants@).take(0).len() == 0);
        Fetch { wants, index: 0, attempt: 1, finished: 0, phase: Phase::Attempt }
    }

    /// The file that is being fetched.
    pub fn current(&self) -> (r: &Want)
        requires
            self@.index < self@.wants.len(),
        ensures
            r.wanted() == self@.wants[self@.index as int],
    {
        let r: &Want = &self.wants[self.index];
        assert(all_wanted(self.wants@)[self.index as int] == r.wanted());
        r
    }

    /// How far the whole download is while `sofar` bytes of the current file are there.
    pub fn progress(&self, sofar: u64) -> (r: Option<u64>)
        ensures
            r.is_some() == (self@.finished + sofar <= u64::MAX),
            r.is_some() ==> r.unwrap() == self@.finished + sofar,
    {
        self.finished.checked_add(sofar)
    }

    fn advance(&mut self) -> (r: FetchAction)
        requires
            old(self).wf(),
            old(self)@.phase != Phase::Over,
        ensures
            final(self).wf(),
            (final(self)@, r) == next_file(old(self)@),
    {
        let ghost all = all_wanted(self.wants@);
        let count: usize = self.wants.len();
        let size: u64 = self.wants[self.index].size;
        proof {
            let i = self.index as int;
            assert(all[i] == self.wants@[i].wanted());
            assert(all.take(i + 1).drop_last() =~= all.take(i));
            lemma_total_grows(all, i + 1);
        }
        self.finished = self.finished + size;
        self.index = self.index + 1;
        self.attempt = 1;
        if self.index < count {
            self.phase = Phase::Attempt;
            FetchAction::Measure
        } else {
            self.phase = Phase::Over;
            FetchAction::Done
        }
    }

    /// The current file has `have` bytes on disk.
    pub fn measured(&mut self, have: u64) -> (r: FetchAction)
        requires
            old(self).wf(),
            old(self)@.phase == Phase::Attempt || old(self)@.phase == Phase::Check,
        ensures
            final(self).wf(),
            (final(self)@, r) == after_measure(old(self)@, have),
    {
        let ghost all = all_wanted(self.wants@);
        let size: u64 = self.wants[self.index].size;
        assert(all[self.index as int] == self.wants@[self.index as int].wanted());
        match self.phase {
            Phase::Attempt => {
                if have == size {
                    self.phase = Phase::Check;
                    FetchAction::Measure
                } else {
                    self.phase = Phase::Transfer;
                    FetchAction::Transfer { discard: have > size }
                }
            },
            _ => {
                if have != size {
                    self.phase = Phase::Over;
                    return FetchAction::Fail(Failure::Incomplete { got: have });
                }
                let hashed: bool = self.wants[self.index].sha.is_some();
                if hashed {
                    self.phase = Phase::Hashing;
                    FetchAction::Hash
                } else {
                    self.advance()
                }
            },
        }
    }

    /// The transfer of the current file ended.
    pub fn transferred(&mut self, ok: bool) -> (r: FetchAction)
        requires
            old(self).wf(),
            old(self)@.phase == Phase::Transfer,
        ensures
            final(self).wf(),
            (final(self)@, r) == after_transfer(old(self)@, ok),
    {
        if ok {
            self.phase = Phase::Check;
            return FetchAction::Measure;
        }
        if self.attempt < MAX_ATTEMPTS {
            let failed: usize = self.attempt;
            self.attempt = failed + 1;
            self.phase = Phase::Attempt;
            FetchAction::Retry { attempt: failed }
        } else {
            self.phase = Phase::Over;
            FetchAction::Fail(Failure::GaveUp)
        }
    }

    /// The checksum of the current file is `actual`.
    pub fn hashed(&mut self, actual: &str) -> (r: FetchAction)
        requires
            old(self).wf(),
            old(self)@.phase == Phase::Hashing,
        ensures
            final(self).wf(),
            (final(self)@, r) == after_hash(old(self)@, actual@),
    {
        let ghost all = all_wanted(self.wants@);
        assert(all[self.index as int] == self.wants@[self.index as int].wanted());
        let same: bool = match &self.wants[self.index].sha {
            Some(sha) => text::same_text(sha.as_str(), actual),
            None => false,
        };
        if same {
            self.advance()
        } else {
            self.phase = Phase::Over;
            FetchAction::Fail(Failure::Mismatch)
        }
    }
}

/// A file is done with only where its size on disk is the manifest's, and where its checksum, if
/// it has one, is the manifest's too.
pub proof fn law_only_verified_files_pass(
    s: FetchState,
    have: u64,
    ok: bool,
    actual: Seq<char>,
)
    requires
        fetch_inv(s),
        s.phase != Phase::Over,
    ensures
        after_transfer(s, ok).0.index == s.index,
        after_measure(s, have).0.index > s.index ==> s.phase != Phase::Attempt && have
            == s.wants[s.index as int].size && s.wants[s.index as int].sha.is_none(),
        after_measure(s, have).0.phase == Phase::Hashing ==> have == s.wants[s.index as int].size,
        s.phase == Phase::Hashing && after_hash(s, actual).0.index > s.index
            ==> s.wants[s.index as int].sha == Some(actual),
{
}

/// What happens to a download.
pub enum FetchEvent {
    Measured(u64),
    Transferred(bool),
    Hashed(Seq<char>),
}

/// The event is one that the download waits for.
pub open spec fn awaited(s: FetchState, e: FetchEvent) -> bool {
    match e {
        FetchEvent::Measured(_) => s.phase == Phase::Attempt || s.phase == Phase::Check,
        FetchEvent::Transferred(_) => s.phase == Phase::Transfer,
        FetchEvent::Hashed(_) => s.phase == Phase::Hashing,
    }
}

/// The download after an event.
pub open spec fn after_event(s: FetchState, e: FetchEvent) -> (FetchState, FetchAction) {
    match e {
        FetchEvent::Measured(have) => after_measure(s, have),
        FetchEvent::Transferred(ok) => after_transfer(s, ok),
        FetchEvent::Hashed(actual) => after_hash(s, actual),
    }
}

/// No file is tried more than six times, and the invariant holds whatever happens.
pub proof fn law_attempts_are_bounded(s: FetchState, e: FetchEvent)
    requires
        fetch_inv(s),
        awaited(s, e),
    ensures
        fetch_inv(after_event(s, e).0),
        after_event(s, e).0.attempt <= MAX_ATTEMPTS,
        after_event(s, e).1 == FetchAction::Fail(Failure::GaveUp) <==> e
            == FetchEvent::Transferred(false) && s.attempt == MAX_ATTEMPTS,
{
    let i = s.index as int;
    assert(s.wants.take(i + 1).drop_last() =~= s.wants.take(i));
    assert(s.wants.take(i + 1).last() == s.wants[i]);
}

/// When the download is done every file has been passed, and the bytes that are finished are the
/// bytes of all of them.
pub proof fn law_done_means_everything(s: FetchState, e: FetchEvent)
    requires
        fetch_inv(s),
        awaited(s, e),
        after_event(s, e).1 == FetchAction::Done,
    ensures
        after_event(s, e).0.index == s.wants.len(),
        after_event(s, e).0.finished == total_bytes(s.wants),
{
    law_attempts_are_bounded(s, e);
    let t = after_event(s, e).0;
    assert(t.wants.take(t.index as int) =~= s.wants);
}

/// The download after all of the events.
pub open spec fn fetch_run(s: FetchState, events: Seq<FetchEvent>) -> FetchState
    decreases events.len(),
{
    if events.len() == 0 {
        s
    } else {
        after_event(fetch_run(s, events.drop_last()), events.last()).0
    }
}

/// Each event is one that the download waits for when it happens.
pub open spec fn all_awaited(s: FetchState, events: Seq<FetchEvent>) -> bool {
    forall|k: int|
        0 <= k < events.len() ==> awaited(fetch_run(s, events.take(k)), #[trigger] events[k])
}

/// At event `k` file `j` was found to have the size that the manifest says.
pub open spec fn size_seen(s: FetchState, events: Seq<FetchEvent>, j: int, k: int) -> bool {
    let at = fetch_run(s, events.take(k));
    &&& 0 <= k < events.len()
    &&& at.index == j
    &&& at.phase == Phase::Check
    &&& events[k] matches FetchEvent::Measured(have)
    &&& have == s.wants[j].size
}

/// At event `k` file `j` was found to have the checksum that the manifest says.
pub open spec fn sha_seen(s: FetchState, events: Seq<FetchEvent>, j: int, k: int) -> bool {
    let at = fetch_run(s, events.take(k));
    &&& 0 <= k < events.len()
    &&& at.index == j
    &&& at.phase == Phase::Hashing
    &&& events[k] matches FetchEvent::Hashed(actual)
    &&& s.wants[j].sha == Some(actual)
}

/// Everything that the manifest says of file `j` was seen to be so.
pub open spec fn verified(s: FetchState, events: Seq<FetchEvent>, j: int) -> bool {
    &&& exists|k: int| size_seen(s, events, j, k)
    &&& s.wants[j].sha.is_some() ==> exists|k: int| sha_seen(s, events, j, k)
}

proof fn lemma_seen_stays(s: FetchState, events: Seq<FetchEvent>, j: int)
    requires
        events.len() > 0,
    ensures
        (exists|k: int| size_seen(s, events.drop_last(), j, k)) ==> exists|k: int|
            size_seen(s, events, j, k),
        (exists|k: int| sha_seen(s, events.drop_last(), j, k)) ==> exists|k: int|
            sha_seen(s, events, j, k),
{
    let fewer = events.drop_last();
    if exists|k: int| size_seen(s, fewer, j, k) {
        let k = choose|k: int| size_seen(s, fewer, j, k);
        assert(fewer.take(k) =~= events.take(k));
        assert(size_seen(s, events, j, k));
    }
    if exists|k: int| sha_seen(s, fewer, j, k) {
        let k = choose|k: int| sha_seen(s, fewer, j, k);
        assert(fewer.take(k) =~= events.take(k));
        assert(sha_seen(s, events, j, k));
    }
}

/// What one event can do to the position of a download.
proof fn lemma_passing(t: FetchState, e: FetchEvent)
    requires
        fetch_inv(t),
        awaited(t, e),
    ensures
        fetch_inv(after_event(t, e).0),
        after_event(t, e).0.wants == t.wants,
        t.index <= after_event(t, e).0.index <= t.index + 1,
        after_event(t, e).0.index > t.index ==> {
            ||| {
                &&& t.phase == Phase::Check
                &&& e matches FetchEvent::Measured(have)
                &&& have == t.wants[t.index as int].size
                &&& t.wants[t.index as int].sha.is_none()
            }
            ||| {
                &&& t.phase == Phase::Hashing
                &&& e matches FetchEvent::Hashed(actual)
                &&& t.wants[t.index as int].sha == Some(actual)
            }
        },
        after_event(t, e).0.phase == Phase::Hashing ==> {
            &&& after_event(t, e).0.index == t.index
            &&& t.phase == Phase::Check
            &&& e matches FetchEvent::Measured(have)
            &&& have == t.wants[t.index as int].size
        },
{
    law_attempts_are_bounded(t, e);
}

/// One more event keeps what was verified, and adds the file that it passes.
proof fn lemma_verified_step(s: FetchState, events: Seq<FetchEvent>, j: int)
    requires
        events.len() > 0,
        ({
            let t = fetch_run(s, events.drop_last());
            &&& fetch_inv(t)
            &&& t.wants == s.wants
            &&& awaited(t, events.last())
            &&& s.index <= j < fetch_run(s, events).index
            &&& j < t.index ==> verified(s, events.drop_last(), j)
            &&& t.phase == Phase::Hashing ==> exists|k: int|
                size_seen(s, events.drop_last(), t.index as int, k)
        }),
    ensures
        verified(s, events, j),
{
    let fewer = events.drop_last();
    let t = fetch_run(s, fewer);
    let n = fewer.len() as int;
    lemma_passing(t, events.last());
    lemma_seen_stays(s, events, j);
    assert(events.take(n) =~= fewer);
    if j >= t.index {
        if t.phase == Phase::Check {
            assert(size_seen(s, events, j, n));
        } else {
            assert(sha_seen(s, events, j, n));
        }
    }
}

/// Whatever happens, every file that the download has passed was verified against the manifest; in
/// particular, when it is done, every file was.
pub proof fn law_every_passed_file_was_verified(s: FetchState, events: Seq<FetchEvent>)
    requires
        fetch_inv(s),
        s.phase == Phase::Attempt,
        all_awaited(s, events),
    ensures
        fetch_inv(fetch_run(s, events)),
        fetch_run(s, events).wants == s.wants,
        fetch_run(s, events).index >= s.index,
        forall|j: int|
            s.index <= j < fetch_run(s, events).index ==> #[trigger] verified(s, events, j),
        fetch_run(s, events).phase == Phase::Hashing ==> exists|k: int|
            size_seen(s, events, fetch_run(s, events).index as int, k),
    decreases events.len(),
{
    if events.len() > 0 {
        let fewer = events.drop_last();
        let n = fewer.len() as int;
        assert forall|k: int| 0 <= k < fewer.len() implies awaited(
            fetch_run(s, fewer.take(k)),
            #[trigger] fewer[k],
        ) by {
            assert(fewer.take(k) =~= events.take(k));
            assert(awaited(fetch_run(s, events.take(k)), events[k]));
        }
        law_every_passed_file_was_verified(s, fewer);
        let t = fetch_run(s, fewer);
        assert(events.take(n) =~= fewer);
        assert(awaited(fetch_run(s, events.take(n)), events[n]));
        lemma_passing(t, events.last());
        assert forall|j: int| s.index <= j < fetch_run(s, events).index implies #[trigger] verified(
            s,
            events,
            j,
        ) by {
            if j < t.index {
                assert(verified(s, fewer, j));
            }
            lemma_verified_step(s, events, j);
        }
        if fetch_run(s, events).phase == Phase::Hashing {
            assert(size_seen(s, events, t.index as int, n));
        }
    } else {
        assert(fetch_run(s, events) == s);
    }
}

/// A sound file passes: where the checksum that was computed is the manifest's, whatever it is, the
/// download goes on with the next file, or is done where there is none. Any other checksum, and
/// nothing else, is a mismatch, and passes nothing.
pub proof fn law_sound_file_passes(s: FetchState, actual: Seq<char>)
    requires
        fetch_inv(s),
        s.phase == Phase::Hashing,
    ensures
        ({
            let want = s.wants[s.index as int];
            let (t, action) = after_hash(s, actual);
            &&& t.wants == s.wants
            &&& want.sha == Some(actual) ==> {
                &&& t.index == s.index + 1
                &&& t.finished == s.finished + want.size
                &&& t.attempt == 1
                &&& s.index + 1 < s.wants.len() ==> t.phase == Phase::Attempt && action
                    == FetchAction::Measure
                &&& s.index + 1 == s.wants.len() ==> t.phase == Phase::Over && action
                    == FetchAction::Done
            }
            &&& want.sha != Some(actual) ==> {
                &&& t.index == s.index
                &&& t.finished == s.finished
                &&& t.phase == Phase::Over
                &&& action == FetchAction::Fail(Failure::Mismatch)
            }
        }),
{
}

/// Where a look at the disk leads. A file that is short or long is transferred, from the top only
/// where it is long; one of the right size is looked at once more, as is one that was transferred.
/// Then a wrong size ends the download, and a right one is followed by the checksum where there is
/// one, and by the next file where there is none.
pub proof fn law_size_decides(s: FetchState, have: u64)
    requires
        fetch_inv(s),
        s.phase == Phase::Attempt || s.phase == Phase::Check,
    ensures
        ({
            let want = s.wants[s.index as int];
            let (t, action) = after_measure(s, have);
            &&& t.wants == s.wants
            &&& s.phase == Phase::Attempt ==> {
                &&& t.index == s.index && t.attempt == s.attempt && t.finished == s.finished
                &&& have < want.size ==> action == (FetchAction::Transfer { discard: false })
                    && t.phase == Phase::Transfer
                &&& have > want.size ==> action == (FetchAction::Transfer { discard: true })
                    && t.phase == Phase::Transfer
                &&& have == want.size ==> action == FetchAction::Measure && t.phase == Phase::Check
            }
            &&& s.phase == Phase::Check && have != want.size ==> {
                &&& t.index == s.index && t.finished == s.finished && t.phase == Phase::Over
                &&& action == FetchAction::Fail(Failure::Incomplete { got: have })
            }
            &&& s.phase == Phase::Check && have == want.size && want.sha.is_some() ==> {
                &&& t.index == s.index && t.finished == s.finished && t.phase == Phase::Hashing
                &&& action == FetchAction::Hash
            }
            &&& s.phase == Phase::Check && have == want.size && want.sha.is_none() ==> {
                &&& t.index == s.index + 1 && t.finished == s.finished + want.size
                &&& t.attempt == 1
                &&& s.index + 1 < s.wants.len() ==> t.phase == Phase::Attempt && action
                    == FetchAction::Measure
                &&& s.index + 1 == s.wants.len() ==> t.phase == Phase::Over && action
                    == FetchAction::Done
            }
        }),
{
}

/// Where the end of a transfer leads: one that went through to a look at the size, one that failed
/// to another try of the same file, and the sixth that failed to giving up.
pub proof fn law_transfers_are_tried_six_times(s: FetchState)
    requires
        fetch_inv(s),
        s.phase == Phase::Transfer,
    ensures
        ({
            let (t, action) = after_transfer(s, true);
            &&& action == FetchAction::Measure && t.phase == Phase::Check
            &&& t.wants == s.wants && t.index == s.index && t.finished == s.finished
        }),
        ({
            let (t, action) = after_transfer(s, false);
            &&& t.wants == s.wants && t.index == s.index && t.finished == s.finished
            &&& s.attempt < 6 ==> {
                &&& action == (FetchAction::Retry { attempt: s.attempt as usize })
                &&& t.phase == Phase::Attempt
                &&& t.attempt == s.attempt + 1
            }
            &&& s.attempt == 6 ==> action == FetchAction::Fail(Failure::GaveUp) && t.phase
                == Phase::Over
        }),
{
}

/// Tries of one file that all failed, with what was on disk before each.
pub open spec fn failed_tries(sizes: Seq<u64>) -> Seq<FetchEvent>
    decreases sizes.len(),
{
    if sizes.len() == 0 {
        seq![]
    } else {
        failed_tries(sizes.drop_last()).push(FetchEvent::Measured(sizes.last())).push(
            FetchEvent::Transferred(false),
        )
    }
}

/// One more event.
proof fn lemma_fetch_step(s: FetchState, events: Seq<FetchEvent>, e: FetchEvent)
    ensures
        fetch_run(s, events.push(e)) == after_event(fetch_run(s, events), e).0,
{
    assert(events.push(e).drop_last() =~= events);
}

/// Tries that failed lose nothing: after up to five of them the same file is tried again, with what
/// was finished before still counted.
pub proof fn law_failed_tries_lose_nothing(s: FetchState, sizes: Seq<u64>)
    requires
        fetch_inv(s),
        s.phase == Phase::Attempt,
        s.attempt + sizes.len() <= 6,
        forall|i: int| 0 <= i < sizes.len() ==> #[trigger] sizes[i] != s.wants[s.index as int].size,
    ensures
        fetch_run(s, failed_tries(sizes)) == (FetchState { attempt: s.attempt + sizes.len(), ..s }),
    decreases sizes.len(),
{
    if sizes.len() > 0 {
        let fewer = sizes.drop_last();
        assert forall|i: int| 0 <= i < fewer.len() implies #[trigger] fewer[i]
            != s.wants[s.index as int].size by {
            assert(fewer[i] == sizes[i]);
        }
        law_failed_tries_lose_nothing(s, fewer);
        let before = failed_tries(fewer);
        let looked = before.push(FetchEvent::Measured(sizes.last()));
        lemma_fetch_step(s, before, FetchEvent::Measured(sizes.last()));
        lemma_fetch_step(s, looked, FetchEvent::Transferred(false));
        assert(sizes[sizes.len() - 1] != s.wants[s.index as int].size);
    }
}

/// A file arrives: after up to five tries that failed, a transfer that goes through, or none where
/// the file is there already, and a right size and, where the manifest has one, a right checksum,
/// the download has passed the file, and is done exactly where it was the last.
pub proof fn law_file_arrives(s: FetchState, sizes: Seq<u64>, have: u64, size: u64)
    requires
        fetch_inv(s),
        s.phase == Phase::Attempt,
        s.attempt + sizes.len() <= 6,
        size == s.wants[s.index as int].size,
        forall|i: int| 0 <= i < sizes.len() ==> #[trigger] sizes[i] != size,
    ensures
        ({
            let want = s.wants[s.index as int];
            let looked = failed_tries(sizes).push(FetchEvent::Measured(have));
            let there = if have == size {
                looked
            } else {
                looked.push(FetchEvent::Transferred(true))
            };
            let sized = there.push(FetchEvent::Measured(size));
            let events = match want.sha {
                Some(sha) => sized.push(FetchEvent::Hashed(sha)),
                None => sized,
            };
            let t = fetch_run(s, events);
            let action = after_event(fetch_run(s, events.drop_last()), events.last()).1;
            &&& t.wants == s.wants
            &&& t.index == s.index + 1
            &&& t.finished == s.finished + size
            &&& t.attempt == 1
            &&& t.phase == if s.index + 1 < s.wants.len() {
                Phase::Attempt
            } else {
                Phase::Over
            }
            &&& action == if s.index + 1 < s.wants.len() {
                FetchAction::Measure
            } else {
                FetchAction::Done
            }
        }),
{
    let want = s.wants[s.index as int];
    let tried = failed_tries(sizes);
    law_failed_tries_lose_nothing(s, sizes);
    lemma_fetch_step(s, tried, FetchEvent::Measured(have));
    let looked = tried.push(FetchEvent::Measured(have));
    lemma_fetch_step(s, looked, FetchEvent::Transferred(true));
    let there = if have == size {
        looked
    } else {
        looked.push(FetchEvent::Transferred(true))
    };
    assert(fetch_run(s, there).phase == Phase::Check);
    assert(fetch_run(s, there).index == s.index);
    lemma_fetch_step(s, there, FetchEvent::Measured(size));
    let sized = there.push(FetchEvent::Measured(size));
    assert(sized.drop_last() =~= there);
    match want.sha {
        Some(sha) => {
            lemma_fetch_step(s, sized, FetchEvent::Hashed(sha));
            assert(sized.push(FetchEvent::Hashed(sha)).drop_last() =~= sized);
        },
        None => {},
    }
}

/// The entry for a name is the first whose path is that name, and there is none exactly where no
/// path is.
pub proof fn law_first_entry_counts(rows: Seq<ManifestRow>, name: Seq<char>, i: int)
    requires
        0 <= i < rows.len(),
        settings::chars_of_string(rows[i].path) == Some(name),
        forall|k: int|
            0 <= k < i ==> settings::chars_of_string((#[trigger] rows[k]).path) != Some(name),
    ensures
        row_for(rows, name) == Some(rows[i]),
    decreases i,
{
    if i > 0 {
        assert(settings::chars_of_string(rows[0].path) != Some(name));
        let rest = rows.skip(1);
        assert forall|k: int| 0 <= k < i - 1 implies settings::chars_of_string(
            (#[trigger] rest[k]).path,
        ) != Some(name) by {
            assert(rest[k] == rows[k + 1]);
        }
        law_first_entry_counts(rest, name, i - 1);
    }
}

/// A name that no entry has for a path has no entry.
pub proof fn law_missing_entry(rows: Seq<ManifestRow>, name: Seq<char>)
    requires
        forall|k: int|
            0 <= k < rows.len() ==> settings::chars_of_string((#[trigger] rows[k]).path) != Some(
                name,
            ),
    ensures
        row_for(rows, name).is_none(),
    decreases rows.len(),
{
    if rows.len() > 0 {
        assert(settings::chars_of_string(rows[0].path) != Some(name));
        let rest = rows.skip(1);
        assert forall|k: int| 0 <= k < rest.len() implies settings::chars_of_string(
            (#[trigger] rest[k]).path,
        ) != Some(name) by {
            assert(rest[k] == rows[k + 1]);
        }
        law_missing_entry(rest, name);
    }
}

/// A manifest that has an entry with a size for every file of the model is planned, and the plan has
/// what the first entry of each file says: its size, and its checksum where there is one.
pub proof fn law_complete_manifest_is_planned(
    r: Result<Vec<Want>, ManifestError>,
    rows: Seq<ManifestRow>,
    names: Seq<Seq<char>>,
    at: Seq<int>,
)
    requires
        planned(r, rows, names),
        at.len() == names.len(),
        forall|i: int|
            0 <= i < names.len() ==> {
                &&& 0 <= #[trigger] at[i] < rows.len()
                &&& settings::chars_of_string(rows[at[i]].path) == Some(names[i])
                &&& rows[at[i]].size.is_some()
                &&& forall|k: int|
                    0 <= k < at[i] ==> settings::chars_of_string((#[trigger] rows[k]).path) != Some(
                        names[i],
                    )
            },
    ensures
        match r {
            Ok(wants) => {
                &&& wants@.len() == names.len()
                &&& forall|i: int|
                    0 <= i < names.len() ==> {
                        &&& (#[trigger] wants@[i]).name@ == names[i]
                        &&& wants@[i].size == rows[at[i]].size.unwrap()
                        &&& settings::chars_of_string(wants@[i].sha) == settings::chars_of_string(
                            rows[at[i]].sha,
                        )
                    }
            },
            Err(_) => false,
        },
{
    assert forall|i: int| 0 <= i < names.len() implies row_for(rows, #[trigger] names[i]) == Some(
        rows[at[i]],
    ) by {
        law_first_entry_counts(rows, names[i], at[i]);
    }
    match r {
        Ok(wants) => {
            assert forall|i: int| 0 <= i < names.len() implies {
                let want = #[trigger] wants@[i];
                &&& want.name@ == names[i]
                &&& want.size == rows[at[i]].size.unwrap()
                &&& settings::chars_of_string(want.sha) == settings::chars_of_string(
                    rows[at[i]].sha,
                )
            } by {
                assert(wants@[i].wanted() == wanted_from(rows, names[i]));
                assert(row_for(rows, names[i]) == Some(rows[at[i]]));
            }
        },
        Err(ManifestError::Missing(name)) => {
            let i = choose|i: int|
                0 <= i < names.len() && #[trigger] names[i] == name@ && row_for(
                    rows,
                    name@,
                ).is_none();
            assert(row_for(rows, names[i]) == Some(rows[at[i]]));
        },
        Err(ManifestError::NoSize(name)) => {
            let i = choose|i: int|
                0 <= i < names.len() && #[trigger] names[i] == name@ && row_for(
                    rows,
                    name@,
                ).is_some() && row_for(rows, name@).unwrap().size.is_none();
            assert(row_for(rows, names[i]) == Some(rows[at[i]]));
        },
        Err(ManifestError::Unreadable) => {},
    }
}

/// A plan leaves out no file and guesses no size: it is there only where every file of the model has
/// an entry with a size.
pub proof fn law_gaps_are_errors(
    r: Result<Vec<Want>, ManifestError>,
    rows: Seq<ManifestRow>,
    names: Seq<Seq<char>>,
    i: int,
)
    requires
        planned(r, rows, names),
        0 <= i < names.len(),
        forall|k: int|
            0 <= k < rows.len() ==> settings::chars_of_string((#[trigger] rows[k]).path) != Some(
                names[i],
            ) || rows[k].size.is_none(),
    ensures
        r.is_err(),
{
    if r.is_ok() {
        assert(has_size(rows, names[i]));
        lemma_row_is_there(rows, names[i]);
    }
}

proof fn lemma_row_is_there(rows: Seq<ManifestRow>, name: Seq<char>)
    requires
        row_for(rows, name).is_some(),
    ensures
        exists|k: int|
            {
                &&& 0 <= k < rows.len()
                &&& #[trigger] rows[k] == row_for(rows, name).unwrap()
                &&& settings::chars_of_string(rows[k].path) == Some(name)
            },
    decreases rows.len(),
{
    if settings::chars_of_string(rows[0].path) == Some(name) {
        assert(rows[0] == row_for(rows, name).unwrap());
    } else {
        let rest = rows.skip(1);
        lemma_row_is_there(rest, name);
        let k = choose|k: int|
            {
                &&& 0 <= k < rest.len()
                &&& #[trigger] rest[k] == row_for(rest, name).unwrap()
                &&& settings::chars_of_string(rest[k].path) == Some(name)
            };
        assert(rows[k + 1] == rest[k]);
    }
}

/// The bytes of all the files are the sum of their sizes, and the bytes that are there the sum of
/// what is there of each, no file counting for more than it has.
pub proof fn law_bytes_are_sums(wants: Seq<Wanted>, want: Wanted, sizes: Seq<u64>)
    requires
        wants.len() < sizes.len(),
    ensures
        total_bytes(Seq::<Wanted>::empty()) == 0,
        bytes_had(Seq::<Wanted>::empty(), sizes) == 0,
        total_bytes(wants.push(want)) == total_bytes(wants) + want.size,
        ({
            let have = sizes[wants.len() as int];
            let all = bytes_had(wants.push(want), sizes);
            &&& have <= want.size ==> all == bytes_had(wants, sizes) + have
            &&& have >= want.size ==> all == bytes_had(wants, sizes) + want.size
        }),
{
    assert(wants.push(want).drop_last() =~= wants);
}

/// How a transfer is written to disk.
#[derive(Clone, Copy, PartialEq, Eq, Structural)]
pub struct WritePlan {
    /// Append to what is on disk; otherwise the file is emptied first.
    pub append: bool,
    /// How many bytes of the file are there before the first of the transfer.
    pub start: u64,
}

/// How to write a reply with the given status to a file of `from` bytes: appended where the server
/// sent the remainder, and from the top where it sent the whole file.
pub fn write_plan(from: u64, status: u16) -> (r: WritePlan)
    ensures
        r.append == (from > 0 && status == 206),
        r.start == if r.append {
            from
        } else {
            0
        },
{
    if from > 0 && status == 206 {
        WritePlan { append: true, start: from }
    } else {
        WritePlan { append: false, start: 0 }
    }
}

/// The range to ask for where `from` bytes are on disk; none where the file is started.
pub fn range_header(from: u64) -> (r: Option<String>)
    ensures
        r.is_some() == (from > 0),
        r.is_some() ==> r.unwrap()@ == "bytes="@ + number::decimal(from as nat) + "-"@,
{
    if from == 0 {
        return None;
    }
    let mut out = "bytes=".to_owned();
    let n = number::to_decimal(from);
    out.append(n.as_str());
    out.append("-");
    Some(out)
}

/// What a server sends of a file: the part from `from` on with status 206, where it was asked for
/// one and honours that, else the whole with another status.
pub open spec fn reply(file: Seq<u8>, from: nat, status: u16) -> Seq<u8> {
    if from > 0 && status == 206 {
        file.skip(from as int)
    } else {
        file
    }
}

/// The file on disk after the reply was written according to plan.
pub open spec fn written(disk: Seq<u8>, plan: WritePlan, body: Seq<u8>) -> Seq<u8> {
    if plan.append {
        disk + body
    } else {
        body
    }
}

/// A resumed download is the same, byte for byte, as a whole one, whether or not the server honours
/// the range; and the progress ends at the file's length.
pub proof fn law_resumed_matches_whole(file: Seq<u8>, from: u64, status: u16, plan: WritePlan)
    requires
        from <= file.len(),
        plan.append == (from > 0 && status == 206),
        plan.start == if plan.append {
            from
        } else {
            0
        },
    ensures
        written(file.take(from as int), plan, reply(file, from as nat, status)) == file,
        plan.start + reply(file, from as nat, status).len() == file.len(),
{
    let body = reply(file, from as nat, status);
    assert(written(file.take(from as int), plan, body) =~= file);
}

/// Reports at most once per step of bytes.
pub struct Throttle {
    last: u64,
}

impl Throttle {
    /// The last amount that was reported.
    pub closed spec fn reported(self) -> nat {
        self.last as nat
    }

    pub fn new() -> (r: Self)
        ensures
            r.reported() == 0,
    {
        Throttle { last: 0 }
    }

    /// Whether `done` of `total` is to be reported: where it is the end, or a step further.
    pub fn due(&mut self, done: u64, total: u64, step: u64) -> (r: bool)
        ensures
            r == (done == total || {
                let gone = if done >= old(self).reported() {
                    done - old(self).reported()
                } else {
                    0
                };
                gone >= step
            }),
            final(self).reported() == if r {
                done as nat
            } else {
                old(self).reported()
            },
    {
        let gone: u64 = if done >= self.last {
            done - self.last
        } else {
            0
        };
        if done == total || gone >= step {
            self.last = done;
            true
        } else {
            false
        }
    }
}

/// The address of the manifest.
pub fn manifest_url() -> (r: String)
    ensures
        r@ == "https://huggingface.co/api/models/kayees/whisper-medium-bn-en-cs-faster/tree/main"@,
{
    "https://huggingface.co/api/models/kayees/whisper-medium-bn-en-cs-faster/tree/main".to_owned()
}

/// The address of one file.
pub fn file_url(name: &str) -> (r: String)
    ensures
        r@ == "https://huggingface.co/kayees/whisper-medium-bn-en-cs-faster/resolve/main/"@ + name@,
{
    let mut out =
        "https://huggingface.co/kayees/whisper-medium-bn-en-cs-faster/resolve/main/".to_owned();
    out.append(name);
    out
}

impl ManifestError {
    pub open spec fn text(self) -> Seq<char> {
        match self {
            ManifestError::Unreadable => "could not read the model manifest from HuggingFace"@,
            ManifestError::Missing(name) => name@
                + " is not in the kayees/whisper-medium-bn-en-cs-faster manifest"@,
            ManifestError::NoSize(name) => name@ + " has no size in the manifest"@,
        }
    }

    /// The error in words.
    pub fn message(&self) -> (r: String)
        ensures
            r@ == self.text(),
    {
        match self {
            ManifestError::Unreadable => {
                "could not read the model manifest from HuggingFace".to_owned()
            },
            ManifestError::Missing(name) => {
                let mut out = name.clone();
                out.append(" is not in the kayees/whisper-medium-bn-en-cs-faster manifest");
                out
            },
            ManifestError::NoSize(name) => {
                let mut out = name.clone();
                out.append(" has no size in the manifest");
                out
            },
        }
    }
}

/// The failure in words, for a file whose checksum came out as `actual`.
pub open spec fn failure_text(f: Failure, want: Wanted, actual: Seq<char>) -> Seq<char> {
    match f {
        Failure::GaveUp => "gave up on "@ + want.name + " after 6 attempts"@,
        Failure::Incomplete { got } => want.name + " is "@ + number::decimal(got as nat)
            + " bytes, expected "@ + number::decimal(want.size)
            + " — the download is incomplete"@,
        Failure::Mismatch => want.name
            + " sha256 does not match HuggingFace, so it has been deleted.\n    expected "@ + (
        match want.sha {
            Some(sha) => sha,
            None => ""@,
        }) + "\n    actual   "@ + actual
            + "\n    Start a dictation again to re-fetch it."@,
    }
}

/// The failure in words.
pub fn failure_message(f: Failure, want: &Want, actual: &str) -> (r: String)
    ensures
        r@ == failure_text(f, want.wanted(), actual@),
{
    match f {
        Failure::GaveUp => {
            let mut out = "gave up on ".to_owned();
            out.append(want.name.as_str());
            out.append(" after 6 attempts");
            out
        },
        Failure::Incomplete { got } => {
            let mut out = want.name.clone();
            out.append(" is ");
            let had = number::to_decimal(got);
            out.append(had.as_str());
            out.append(" bytes, expected ");
            let size = number::to_decimal(want.size);
            out.append(size.as_str());
            out.append(" — the download is incomplete");
            out
        },
        Failure::Mismatch => {
            let mut out = want.name.clone();
            out.append(
                " sha256 does not match HuggingFace, so it has been deleted.\n    expected ",
            );
            match &want.sha {
                Some(sha) => {
                    out.append(sha.as_str());
                },
                None => {
                    out.append("");
                },
            }
            out.append("\n    actual   ");
            out.append(actual);
            out.append("\n    Start a dictation again to re-fetch it.");
            out
        },
    }
}

/// An error names the first file that the manifest says too little of: one that no entry has for a
/// path, or one whose first entry has no size. Every file before it has an entry with a size.
pub proof fn law_errors_name_the_first_gap(
    r: Result<Vec<Want>, ManifestError>,
    rows: Seq<ManifestRow>,
    names: Seq<Seq<char>>,
)
    requires
        planned(r, rows, names),
    ensures
        match r {
            Err(ManifestError::Missing(name)) => {
                &&& forall|k: int|
                    0 <= k < rows.len() ==> settings::chars_of_string((#[trigger] rows[k]).path)
                        != Some(name@)
                &&& exists|i: int|
                    {
                        &&& 0 <= i < names.len()
                        &&& #[trigger] names[i] == name@
                        &&& forall|j: int| 0 <= j < i ==> has_entry(rows, #[trigger] names[j])
                    }
            },
            Err(ManifestError::NoSize(name)) => {
                &&& exists|k: int|
                    {
                        &&& 0 <= k < rows.len()
                        &&& settings::chars_of_string((#[trigger] rows[k]).path) == Some(name@)
                        &&& rows[k].size.is_none()
                    }
                &&& exists|i: int|
                    {
                        &&& 0 <= i < names.len()
                        &&& #[trigger] names[i] == name@
                        &&& forall|j: int| 0 <= j < i ==> has_entry(rows, #[trigger] names[j])
                    }
            },
            Err(ManifestError::Unreadable) => false,
            Ok(_) => true,
        },
{
    assert forall|name: Seq<char>| #[trigger] has_size(rows, name) implies has_entry(
        rows,
        name,
    ) by {
        lemma_row_is_there(rows, name);
    }
    match r {
        Err(ManifestError::Missing(name)) => {
            assert forall|k: int| 0 <= k < rows.len() implies settings::chars_of_string(
                (#[trigger] rows[k]).path,
            ) != Some(name@) by {
                lemma_entry_is_found(rows, name@, k);
            }
            let i = choose|i: int|
                {
                    &&& 0 <= i < names.len()
                    &&& #[trigger] names[i] == name@
                    &&& forall|k: int| 0 <= k < i ==> has_size(rows, #[trigger] names[k])
                };
            assert forall|j: int| 0 <= j < i implies has_entry(rows, #[trigger] names[j]) by {
                assert(has_size(rows, names[j]));
            }
            assert(names[i] == name@);
        },
        Err(ManifestError::NoSize(name)) => {
            lemma_row_is_there(rows, name@);
            let i = choose|i: int|
                {
                    &&& 0 <= i < names.len()
                    &&& #[trigger] names[i] == name@
                    &&& forall|k: int| 0 <= k < i ==> has_size(rows, #[trigger] names[k])
                };
            assert forall|j: int| 0 <= j < i implies has_entry(rows, #[trigger] names[j]) by {
                assert(has_size(rows, names[j]));
            }
            assert(names[i] == name@);
        },
        _ => {},
    }
}

/// An entry has the name for its path, and a size.
pub open spec fn has_entry(rows: Seq<ManifestRow>, name: Seq<char>) -> bool {
    exists|k: int|
        {
            &&& 0 <= k < rows.len()
            &&& settings::chars_of_string((#[trigger] rows[k]).path) == Some(name)
            &&& rows[k].size.is_some()
        }
}

proof fn lemma_entry_is_found(rows: Seq<ManifestRow>, name: Seq<char>, k: int)
    requires
        0 <= k < rows.len(),
    ensures
        settings::chars_of_string(rows[k].path) == Some(name) ==> row_for(rows, name).is_some(),
    decreases rows.len(),
{
    if k > 0 {
        assert(rows.skip(1)[k - 1] == rows[k]);
        lemma_entry_is_found(rows.skip(1), name, k - 1);
    }
}

/// A file to have is looked at as it is: its name, its size and its checksum.
pub proof fn law_wanted_is_what_is_asked_for(wants: Seq<Want>, i: int)
    requires
        0 <= i < wants.len(),
    ensures
        all_wanted(wants).len() == wants.len(),
        all_wanted(wants)[i].name == wants[i].name@,
        all_wanted(wants)[i].size == wants[i].size,
        all_wanted(wants)[i].sha == match wants[i].sha {
            Some(sha) => Some(sha@),
            None => None,
        },
{
}

/// The model is five files.
pub proof fn law_model_is_five_files(i: int)
    requires
        0 <= i < model_file_names().len(),
    ensures
        model_file_names().len() == 5,
        model_file_names()[i] == seq![
            "model.bin"@,
            "tokenizer.json"@,
            "vocabulary.json"@,
            "config.json"@,
            "preprocessor_config.json"@,
        ][i],
{
}

/// What went wrong is told with the file's name, and with the figures that differ.
pub proof fn law_failures_are_told(want: Wanted, got: u64, actual: Seq<char>, sha: Seq<char>)
    requires
        want.sha == Some(sha),
    ensures
        failure_text(Failure::GaveUp, want, actual) == "gave up on "@ + want.name
            + " after 6 attempts"@,
        failure_text(Failure::Incomplete { got }, want, actual) == want.name + " is "@
            + number::decimal(got as nat) + " bytes, expected "@ + number::decimal(want.size)
            + " — the download is incomplete"@,
        failure_text(Failure::Mismatch, want, actual) == want.name
            + " sha256 does not match HuggingFace, so it has been deleted.\n    expected "@ + sha
            + "\n    actual   "@ + actual + "\n    Start a dictation again to re-fetch it."@,
{
}

/// What is wrong with a manifest is told with the file's name.
pub proof fn law_gaps_are_told(name: String)
    ensures
        ManifestError::Missing(name).text() == name@
            + " is not in the kayees/whisper-medium-bn-en-cs-faster manifest"@,
        ManifestError::NoSize(name).text() == name@ + " has no size in the manifest"@,
{
}

} // verus!
