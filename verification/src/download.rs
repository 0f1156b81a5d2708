//! The download of one file: resuming, reconnecting, and the check of what came.
//!
//! The file's bytes are collected under another name, its partial file, and take the file's
//! place only once they are all there and have the digest that the manifest gives. What has to be
//! done with disk and network is decided here, step by step, from what came of the step before.

use crate::digest::{has_digest, ContentHash};
use crate::errors::InstallError;
use crate::models::ManifestFile;
use crate::text::{decimal, push_decimal};
use vstd::prelude::*;

verus! {

broadcast use vstd::string::group_string_axioms;

/// The status of a reply that holds a part of a file.
pub const PARTIAL_CONTENT: u16 = 206;

/// How often an interrupted download is taken up again.
pub const RECONNECTS: u32 = 6;

/// How often a file is requested before the request fails.
pub const ATTEMPTS: u32 = 3;

/// What a download waits for.
#[derive(Clone, Copy, PartialEq, Eq, Structural)]
pub enum Stage {
    /// To be begun.
    Start,
    /// To learn whether the file is there already.
    Checking,
    /// To learn how much of the file is there already.
    Measuring,
    /// The digest of what is there already.
    Hashing,
    /// A reply to its first request.
    Requested,
    /// A reply to a request after an interruption.
    Reconnecting,
    /// The bytes of a reply.
    Receiving,
    /// The partial file to take the file's place.
    Placing,
    /// Nothing: it has come to an end.
    Finished,
}

/// What happened to a download.
pub enum DownloadEvent<'a> {
    /// It shall begin, unless the installation has been cancelled.
    Begin { cancelled: bool },
    /// What is there of the file already, if it has the length that the manifest gives.
    Checked(Option<ContentHash>),
    /// The length of the partial file, zero where there is none.
    Measured(u64),
    /// The digest of the partial file.
    Hashed(ContentHash),
    /// A reply came, with a status of success.
    Answered { status: u16, cancelled: bool },
    /// More bytes of the reply came.
    Chunk { bytes: &'a [u8], cancelled: bool },
    /// The reply ended, or broke off.
    Ended { broken: bool },
    /// The partial file has taken the file's place, or could not.
    Placed(Result<(), InstallError>),
    /// Disk or network failed.
    Broken(InstallError),
}

/// What to do next for a download.
pub enum DownloadAction {
    /// Take the digest of the file, if it is there already and has the right length.
    CheckExisting,
    /// Nothing more: the file is there, as it should be.
    Done,
    /// Make the file's folder, and measure the partial file.
    MeasurePartial,
    /// Take the digest of the partial file.
    HashPartial,
    /// Request the file from an offset on, once the partial file is removed where it has to be.
    Fetch { offset: u64, discard: bool },
    /// Open the partial file, to append to it or to write it anew, and await bytes.
    Receive { append: bool },
    /// Write the bytes to the partial file, and await more.
    Write,
    /// Close the partial file, wait, and request the file from an offset on.
    FetchAfter { millis: u64, offset: u64 },
    /// Close the partial file, and let it take the file's place.
    Install,
    /// Close the partial file where it is open, and give up.
    Fail(InstallError),
}

/// How far a download has come.
pub struct DownloadState {
    pub stage: Stage,
    /// How many bytes of the file are there.
    pub received: u64,
    /// The bytes whose digest has been taken.
    pub content: Seq<u8>,
    /// How often the download has been taken up again.
    pub reconnects: u32,
}

/// A download that has not begun.
pub open spec fn unbegun() -> DownloadState {
    DownloadState { stage: Stage::Start, received: 0, content: Seq::empty(), reconnects: 0 }
}

impl DownloadState {
    /// The same download, waiting for something else.
    pub open spec fn at(self, stage: Stage) -> DownloadState {
        DownloadState { stage, ..self }
    }

    /// Whether the event is one that the download waits for.
    pub open spec fn awaits(self, event: DownloadEvent) -> bool {
        match event {
            DownloadEvent::Begin { .. } => self.stage is Start,
            DownloadEvent::Checked(content) => self.stage is Checking && (content matches Some(hash)
                ==> hash.wf()),
            DownloadEvent::Measured(_) => self.stage is Measuring,
            DownloadEvent::Hashed(hash) => self.stage is Hashing && hash.wf(),
            DownloadEvent::Answered { .. } => self.stage is Requested || self.stage is Reconnecting,
            DownloadEvent::Chunk { bytes, .. } => self.stage is Receiving && self.received
                + bytes@.len() <= u64::MAX,
            DownloadEvent::Ended { .. } => self.stage is Receiving,
            DownloadEvent::Placed(_) => self.stage is Placing,
            DownloadEvent::Broken(_) => !(self.stage is Finished),
        }
    }
}

/// Whether bytes are the file that a manifest describes.
pub open spec fn is_file(bytes: Seq<u8>, file: ManifestFile) -> bool {
    bytes.len() == file.size && has_digest(bytes, file.sha256@)
}

/// Whether there are bytes, and they are the file that a manifest describes.
pub open spec fn is_valid_content(content: Option<ContentHash>, file: ManifestFile) -> bool {
    match content {
        Some(hash) => is_file(hash@, file),
        None => false,
    }
}

/// What to do after an event.
pub open spec fn download_action(
    file: ManifestFile,
    state: DownloadState,
    event: DownloadEvent,
) -> DownloadAction {
    match event {
        DownloadEvent::Begin { cancelled } => if cancelled {
            DownloadAction::Fail(InstallError::Cancelled)
        } else {
            DownloadAction::CheckExisting
        },
        DownloadEvent::Checked(content) => if is_valid_content(content, file) {
            DownloadAction::Done
        } else {
            DownloadAction::MeasurePartial
        },
        DownloadEvent::Measured(length) => if length > file.size {
            DownloadAction::Fetch { offset: 0, discard: true }
        } else if length > 0 {
            DownloadAction::HashPartial
        } else {
            DownloadAction::Fetch { offset: 0, discard: false }
        },
        DownloadEvent::Hashed(hash) => if state.received == file.size && has_digest(
            hash@,
            file.sha256@,
        ) {
            DownloadAction::Install
        } else {
            DownloadAction::Fetch { offset: state.received, discard: false }
        },
        DownloadEvent::Answered { status, cancelled } => {
            let ignored = state.received > 0 && status != PARTIAL_CONTENT;
            if state.stage is Requested && ignored {
                DownloadAction::Fetch { offset: 0, discard: true }
            } else if cancelled {
                DownloadAction::Fail(InstallError::Cancelled)
            } else if ignored {
                DownloadAction::Fail(InstallError::NotResumable(file.path))
            } else {
                DownloadAction::Receive { append: state.received > 0 }
            }
        },
        DownloadEvent::Chunk { cancelled, .. } => if cancelled {
            DownloadAction::Fail(InstallError::Cancelled)
        } else {
            DownloadAction::Write
        },
        DownloadEvent::Ended { broken } => if state.received == file.size {
            if has_digest(state.content, file.sha256@) {
                DownloadAction::Install
            } else {
                DownloadAction::Fail(InstallError::Corrupt(file.path))
            }
        } else if state.received > file.size {
            DownloadAction::Fail(InstallError::TooLarge(file.path))
        } else if state.reconnects >= RECONNECTS {
            if broken {
                DownloadAction::Fail(InstallError::Disconnected(file.path))
            } else {
                DownloadAction::Fail(InstallError::EndedEarly(file.path))
            }
        } else {
            DownloadAction::FetchAfter {
                millis: (500 * (state.reconnects + 1)) as u64,
                offset: state.received,
            }
        },
        DownloadEvent::Placed(Ok(())) => DownloadAction::Done,
        DownloadEvent::Placed(Err(error)) => DownloadAction::Fail(error),
        DownloadEvent::Broken(error) => DownloadAction::Fail(error),
    }
}

/// How far a download has come after an event.
pub open spec fn download_after(
    file: ManifestFile,
    state: DownloadState,
    event: DownloadEvent,
) -> DownloadState {
    let action = download_action(file, state, event);
    if action is Fail || action is Done {
        DownloadState { stage: Stage::Finished, content: Seq::empty(), ..state }
    } else if action is Install {
        DownloadState { stage: Stage::Placing, content: Seq::empty(), ..state }
    } else {
        match event {
            DownloadEvent::Begin { .. } => state.at(Stage::Checking),
            DownloadEvent::Checked(_) => state.at(Stage::Measuring),
            DownloadEvent::Measured(length) => if action is HashPartial {
                DownloadState { stage: Stage::Hashing, received: length, ..state }
            } else {
                state.at(Stage::Requested)
            },
            DownloadEvent::Hashed(hash) => DownloadState {
                stage: Stage::Requested,
                content: hash@,
                ..state
            },
            DownloadEvent::Answered { .. } => if action is Fetch {
                DownloadState { received: 0, content: Seq::empty(), ..state }
            } else {
                state.at(Stage::Receiving)
            },
            DownloadEvent::Chunk { bytes, .. } => DownloadState {
                received: (state.received + bytes@.len()) as u64,
                content: state.content + bytes@,
                ..state
            },
            DownloadEvent::Ended { .. } => DownloadState {
                stage: Stage::Reconnecting,
                reconnects: (state.reconnects + 1) as u32,
                ..state
            },
            DownloadEvent::Placed(_) | DownloadEvent::Broken(_) => state,
        }
    }
}

/// The count of bytes to report after an event, if it is a new one.
pub open spec fn download_report(
    file: ManifestFile,
    state: DownloadState,
    event: DownloadEvent,
) -> Option<u64> {
    match event {
        DownloadEvent::Checked(_) | DownloadEvent::Hashed(_) => match download_action(
            file,
            state,
            event,
        ) {
            DownloadAction::Done | DownloadAction::Install => Some(file.size),
            _ => None,
        },
        DownloadEvent::Answered { status, .. } => if state.stage is Requested && !(
        download_action(file, state, event) is Fetch) {
            Some(state.received)
        } else {
            None
        },
        DownloadEvent::Chunk { bytes, cancelled } => if cancelled {
            None
        } else {
            Some((state.received + bytes@.len()) as u64)
        },
        _ => None,
    }
}

/// The download of one file.
pub struct FileDownload {
    file: ManifestFile,
    stage: Stage,
    received: u64,
    hash: ContentHash,
    reconnects: u32,
}

impl View for FileDownload {
    type V = DownloadState;

    closed spec fn view(&self) -> DownloadState {
        DownloadState {
            stage: self.stage,
            received: self.received,
            content: self.hash@,
            reconnects: self.reconnects,
        }
    }
}

impl FileDownload {
    /// The file that is downloaded.
    pub closed spec fn file(self) -> ManifestFile {
        self.file
    }

    /// What every step keeps.
    pub closed spec fn wf(self) -> bool {
        self.hash.wf() && self.reconnects <= RECONNECTS
    }

    /// A download that has not begun.
    pub fn new(file: ManifestFile) -> (r: FileDownload)
        ensures
            r.wf(),
            r.file() == file,
            r@ == unbegun(),
    {
        FileDownload {
            file,
            stage: Stage::Start,
            received: 0,
            hash: ContentHash::new(),
            reconnects: 0,
        }
    }

    /// How many bytes of the file are there.
    pub fn received(&self) -> (r: u64)
        ensures
            r == self@.received,
    {
        self.received
    }

    /// What the download waits for.
    pub fn stage(&self) -> (r: Stage)
        ensures
            r == self@.stage,
    {
        self.stage
    }

    /// Brings the download to its end, or to where it waits for the partial file to take the file's
    /// place.
    fn close(&mut self, stage: Stage)
        requires
            old(self).wf(),
        ensures
            final(self).wf(),
            final(self).file() == old(self).file(),
            final(self)@ == (DownloadState { stage, content: Seq::empty(), ..old(self)@ }),
    {
        self.stage = stage;
        self.hash = ContentHash::new();
    }
}

/// Takes a download on by one event: what to report, and what to do next.
pub fn download_file(download: &mut FileDownload, event: DownloadEvent) -> (r: (
    Option<u64>,
    DownloadAction,
))
    requires
        old(download).wf(),
        old(download)@.awaits(event),
    ensures
        final(download).wf(),
        final(download).file() == old(download).file(),
        final(download)@ == download_after(old(download).file(), old(download)@, event),
        r.0 == download_report(old(download).file(), old(download)@, event),
        r.1 == download_action(old(download).file(), old(download)@, event),
{
    match event {
        DownloadEvent::Begin { cancelled } => if cancelled {
            download.close(Stage::Finished);
            (None, DownloadAction::Fail(InstallError::Cancelled))
        } else {
            download.stage = Stage::Checking;
            (None, DownloadAction::CheckExisting)
        },
        DownloadEvent::Checked(content) => if is_valid(content, &download.file) {
            download.close(Stage::Finished);
            (Some(download.file.size), DownloadAction::Done)
        } else {
            download.stage = Stage::Measuring;
            (None, DownloadAction::MeasurePartial)
        },
        DownloadEvent::Measured(length) => if length > download.file.size {
            download.stage = Stage::Requested;
            (None, DownloadAction::Fetch { offset: 0, discard: true })
        } else if length > 0 {
            download.stage = Stage::Hashing;
            download.received = length;
            (None, DownloadAction::HashPartial)
        } else {
            download.stage = Stage::Requested;
            (None, DownloadAction::Fetch { offset: 0, discard: false })
        },
        DownloadEvent::Hashed(hash) => if download.received == download.file.size
            && hash.matches(download.file.sha256.as_str()) {
            download.close(Stage::Placing);
            (Some(download.file.size), DownloadAction::Install)
        } else {
            download.stage = Stage::Requested;
            download.hash = hash;
            (None, DownloadAction::Fetch { offset: download.received, discard: false })
        },
        DownloadEvent::Answered { status, cancelled } => {
            let first = download.stage == Stage::Requested;
            let ignored = download.received > 0 && status != PARTIAL_CONTENT;
            if first && ignored {
                download.received = 0;
                download.hash = ContentHash::new();
                return (None, DownloadAction::Fetch { offset: 0, discard: true });
            }
            let report = if first {
                Some(download.received)
            } else {
                None
            };
            if cancelled {
                download.close(Stage::Finished);
                (report, DownloadAction::Fail(InstallError::Cancelled))
            } else if ignored {
                download.close(Stage::Finished);
                (report, DownloadAction::Fail(InstallError::NotResumable(download.file.path.clone())))
            } else {
                download.stage = Stage::Receiving;
                (report, DownloadAction::Receive { append: download.received > 0 })
            }
        },
        DownloadEvent::Chunk { bytes, cancelled } => if cancelled {
            download.close(Stage::Finished);
            (None, DownloadAction::Fail(InstallError::Cancelled))
        } else {
            download.hash.update(bytes);
            download.received = download.received + bytes.len() as u64;
            (Some(download.received), DownloadAction::Write)
        },
        DownloadEvent::Ended { broken } => if download.received == download.file.size {
            if download.hash.matches(download.file.sha256.as_str()) {
                download.close(Stage::Placing);
                (None, DownloadAction::Install)
            } else {
                download.close(Stage::Finished);
                (None, DownloadAction::Fail(InstallError::Corrupt(download.file.path.clone())))
            }
        } else if download.received > download.file.size {
            download.close(Stage::Finished);
            (None, DownloadAction::Fail(InstallError::TooLarge(download.file.path.clone())))
        } else if download.reconnects >= RECONNECTS {
            download.close(Stage::Finished);
            let path = download.file.path.clone();
            if broken {
                (None, DownloadAction::Fail(InstallError::Disconnected(path)))
            } else {
                (None, DownloadAction::Fail(InstallError::EndedEarly(path)))
            }
        } else {
            download.stage = Stage::Reconnecting;
            download.reconnects = download.reconnects + 1;
            (
                None,
                DownloadAction::FetchAfter {
                    millis: 500 * download.reconnects as u64,
                    offset: download.received,
                },
            )
        },
        DownloadEvent::Placed(Ok(())) => {
            download.close(Stage::Finished);
            (None, DownloadAction::Done)
        },
        DownloadEvent::Placed(Err(error)) | DownloadEvent::Broken(error) => {
            download.close(Stage::Finished);
            (None, DownloadAction::Fail(error))
        },
    }
}

/// What came of one request for a file.
pub enum FetchOutcome {
    /// The server answered: the status, and the status in words.
    Answered(u16, String),
    /// The request failed; why.
    Failed(String),
}

/// What to do after a request for a file.
pub enum FetchAction {
    /// Take the reply.
    Accept,
    /// Wait, and request the file again.
    Retry { millis: u64 },
    /// Wait, and give up.
    GiveUp { millis: u64, error: InstallError },
}

/// What to do after the request with the given number, counted from zero: a file is requested up
/// to three times, and the last failure counts.
pub fn fetch_with_retry(attempt: u32, outcome: FetchOutcome) -> (action: FetchAction)
    requires
        attempt < ATTEMPTS,
    ensures
        match outcome {
            FetchOutcome::Answered(status, words) => {
                &&& action is Accept <==> crate::api::is_success(status)
                &&& action matches FetchAction::GiveUp { error, .. } ==> error
                    == InstallError::Refused(words)
            },
            FetchOutcome::Failed(reason) => {
                &&& !(action is Accept)
                &&& action matches FetchAction::GiveUp { error, .. } ==> error
                    == InstallError::Other(reason)
            },
        },
        action matches FetchAction::Retry { millis } ==> attempt + 1 < ATTEMPTS && millis == 700 * (
        attempt + 1),
        action matches FetchAction::GiveUp { millis, .. } ==> attempt + 1 == ATTEMPTS && millis
            == 700 * (attempt + 1),
{
    let millis: u64 = 700 * (attempt as u64 + 1);
    let error = match outcome {
        FetchOutcome::Answered(status, words) => if crate::api::succeeded(status) {
            return FetchAction::Accept;
        } else {
            InstallError::Refused(words)
        },
        FetchOutcome::Failed(reason) => InstallError::Other(reason),
    };
    if attempt + 1 < ATTEMPTS {
        FetchAction::Retry { millis }
    } else {
        FetchAction::GiveUp { millis, error }
    }
}

/// The range to request from an offset on, where it is not the whole file.
pub fn range_header(offset: u64) -> (r: Option<String>)
    ensures
        match r {
            Some(range) => offset > 0 && range@ == "bytes="@ + decimal(offset as nat) + "-"@,
            None => offset == 0,
        },
{
    if offset == 0 {
        return None;
    }
    let mut range = "bytes=".to_owned();
    push_decimal(&mut range, offset as u128);
    range.append("-");
    Some(range)
}

/// Whether a file that is there has to be read to learn whether it is valid: it is not, unless
/// it has the length that the manifest gives.
pub fn has_expected_length(length: Option<u64>, expected: &ManifestFile) -> (r: bool)
    ensures
        r == (length == Some(expected.size)),
{
    match length {
        Some(length) => length == expected.size,
        None => false,
    }
}

/// Whether a file is valid: it is there, with the length and the digest that the manifest gives.
pub fn is_valid(content: Option<ContentHash>, expected: &ManifestFile) -> (r: bool)
    requires
        content matches Some(hash) ==> hash.wf(),
    ensures
        r == is_valid_content(content, *expected),
{
    match content {
        Some(hash) => hash.has_length(expected.size) && hash.matches(expected.sha256.as_str()),
        None => false,
    }
}

/// What a partial file holds once an action has been carried out.
pub open spec fn partial_after(
    partial: Seq<u8>,
    event: DownloadEvent,
    action: DownloadAction,
) -> Seq<u8> {
    match action {
        DownloadAction::Fetch { discard, .. } => if discard {
            Seq::empty()
        } else {
            partial
        },
        DownloadAction::Receive { append } => if append {
            partial
        } else {
            Seq::empty()
        },
        DownloadAction::Write => match event {
            DownloadEvent::Chunk { bytes, .. } => partial + bytes@,
            _ => partial,
        },
        _ => partial,
    }
}

/// Whether an event tells the truth about the file, as it was before the download, and about its
/// partial file.
pub open spec fn tells_truth(
    file: ManifestFile,
    existing: Option<Seq<u8>>,
    partial: Seq<u8>,
    event: DownloadEvent,
) -> bool {
    match event {
        DownloadEvent::Checked(content) => match content {
            Some(hash) => existing == Some(hash@),
            None => existing matches Some(bytes) ==> bytes.len() != file.size,
        },
        DownloadEvent::Measured(length) => length == partial.len(),
        DownloadEvent::Hashed(hash) => hash@ == partial,
        _ => true,
    }
}

/// Whether what a download knows of its partial file is what the partial file holds.
pub open spec fn in_step(file: ManifestFile, state: DownloadState, partial: Seq<u8>) -> bool {
    match state.stage {
        Stage::Start | Stage::Checking | Stage::Measuring => state.received == 0
            && state.content.len() == 0,
        Stage::Hashing => state.received == partial.len() && state.received <= file.size,
        Stage::Requested | Stage::Reconnecting | Stage::Receiving => state.content == partial
            && state.received == partial.len(),
        Stage::Placing => is_file(partial, file),
        Stage::Finished => true,
    }
}

/// How a download went.
pub struct Course {
    pub state: DownloadState,
    /// What the partial file holds.
    pub partial: Seq<u8>,
    /// The count of bytes that was reported last, none before the first report.
    pub reported: u64,
    /// By how much the reported counts have grown, all together.
    pub counted: nat,
}

/// Where a download and its partial file stand after a sequence of events, each awaited and
/// true, and with every action carried out; nothing, if an event was not. The file was there
/// before with the given bytes, or was not, and so was its partial file.
pub open spec fn download_run(
    file: ManifestFile,
    existing: Option<Seq<u8>>,
    partial: Seq<u8>,
    events: Seq<DownloadEvent>,
) -> Option<Course>
    decreases events.len(),
{
    if events.len() == 0 {
        Some(Course { state: unbegun(), partial, reported: 0, counted: 0 })
    } else {
        match download_run(file, existing, partial, events.drop_last()) {
            Some(course) => {
                let event = events.last();
                if course.state.awaits(event) && tells_truth(
                    file,
                    existing,
                    course.partial,
                    event,
                ) {
                    Some(course_after(file, course, event))
                } else {
                    None
                }
            },
            None => None,
        }
    }
}

/// How a download went, after one more event.
pub open spec fn course_after(file: ManifestFile, course: Course, event: DownloadEvent) -> Course {
    let report = download_report(file, course.state, event);
    Course {
        state: download_after(file, course.state, event),
        partial: partial_after(
            course.partial,
            event,
            download_action(file, course.state, event),
        ),
        reported: match report {
            Some(bytes) => bytes,
            None => course.reported,
        },
        counted: match report {
            Some(bytes) => if bytes > course.reported {
                (course.counted + (bytes - course.reported)) as nat
            } else {
                course.counted
            },
            None => course.counted,
        },
    }
}

/// What the reports of a download say at each stage: nothing before its first request, and from
/// then on how many bytes are there, which are all of them once the partial file is to take the
/// file's place.
pub open spec fn reports_in_step(file: ManifestFile, course: Course) -> bool {
    match course.state.stage {
        Stage::Start | Stage::Checking | Stage::Measuring | Stage::Hashing | Stage::Requested =>
            course.reported == 0,
        Stage::Receiving | Stage::Reconnecting => course.reported == course.state.received,
        Stage::Placing => course.reported == file.size,
        Stage::Finished => true,
    }
}

/// One step keeps a download in step with its partial file.
proof fn lemma_step_keeps_in_step(
    file: ManifestFile,
    existing: Option<Seq<u8>>,
    course: Course,
    event: DownloadEvent,
)
    requires
        in_step(file, course.state, course.partial),
        reports_in_step(file, course),
        course.counted == course.reported,
        course.state.awaits(event),
        tells_truth(file, existing, course.partial, event),
    ensures
        ({
            let after = course_after(file, course, event);
            &&& in_step(file, after.state, after.partial)
            &&& reports_in_step(file, after)
            &&& after.counted == after.reported
        }),
{
    let state = course.state;
    let partial = course.partial;
    let next = download_after(file, state, event);
    let held = course_after(file, course, event).partial;
    assert(state.content.len() == 0 ==> state.content =~= Seq::<u8>::empty());
    assert(partial.len() == 0 ==> partial =~= Seq::<u8>::empty());
    if next.stage is Requested || next.stage is Reconnecting || next.stage is Receiving {
        assert(next.content =~= held);
    }
}

/// However a download went, what it knows of its partial file is what the partial file holds, it
/// has been taken up again at most six times, and the counts that it reports never fall.
pub proof fn law_download_stays_in_step(
    file: ManifestFile,
    existing: Option<Seq<u8>>,
    partial: Seq<u8>,
    events: Seq<DownloadEvent>,
)
    ensures
        download_run(file, existing, partial, events) matches Some(course) ==> {
            &&& in_step(file, course.state, course.partial)
            &&& course.state.reconnects <= RECONNECTS
            &&& reports_in_step(file, course)
            &&& course.counted == course.reported
        },
    decreases events.len(),
{
    if events.len() > 0 {
        law_download_stays_in_step(file, existing, partial, events.drop_last());
        if let Some(course) = download_run(file, existing, partial, events.drop_last()) {
            let event = events.last();
            if course.state.awaits(event) && tells_truth(file, existing, course.partial, event) {
                lemma_step_keeps_in_step(file, existing, course, event);
            }
        }
    }
}

/// Whatever was left of an earlier attempt and however often the connection broke: a download
/// ends well only if the file was there already with the length and the digest that the manifest
/// gives, or if the partial file has them and has taken its place. No other partial file is to take
/// its place.
pub proof fn law_installed_file_is_verified(
    file: ManifestFile,
    existing: Option<Seq<u8>>,
    partial: Seq<u8>,
    events: Seq<DownloadEvent>,
    event: DownloadEvent,
)
    ensures
        download_run(file, existing, partial, events) matches Some(course) ==> course.state.awaits(
            event,
        ) && tells_truth(file, existing, course.partial, event) ==> {
            let action = download_action(file, course.state, event);
            &&& action is Install ==> is_file(course.partial, file)
            &&& action is Done ==> (existing matches Some(bytes) && is_file(bytes, file)) || (event
                matches DownloadEvent::Placed(Ok(())) && is_file(course.partial, file))
        },
{
    law_download_stays_in_step(file, existing, partial, events);
}

/// A download that ends well has counted as many bytes as the file has, however much of it was
/// there before.
pub proof fn law_counts_add_up_to_the_size(
    file: ManifestFile,
    existing: Option<Seq<u8>>,
    partial: Seq<u8>,
    events: Seq<DownloadEvent>,
    event: DownloadEvent,
)
    ensures
        download_run(file, existing, partial, events) matches Some(course) ==> course.state.awaits(
            event,
        ) && tells_truth(file, existing, course.partial, event) ==> {
            let action = download_action(file, course.state, event);
            action is Install || action is Done ==> course_after(file, course, event).counted
                == file.size
        },
{
    law_download_stays_in_step(file, existing, partial, events);
}

/// A download is taken up where it stopped: every request for the rest of a file asks for what
/// follows the bytes that the partial file holds once the action has been carried out.
pub proof fn law_download_resumes_where_it_stopped(
    file: ManifestFile,
    existing: Option<Seq<u8>>,
    partial: Seq<u8>,
    events: Seq<DownloadEvent>,
    event: DownloadEvent,
)
    ensures
        download_run(file, existing, partial, events) matches Some(course) ==> course.state.awaits(
            event,
        ) && tells_truth(file, existing, course.partial, event) ==> {
            let action = download_action(file, course.state, event);
            let kept = partial_after(course.partial, event, action);
            &&& action matches DownloadAction::Fetch { offset, .. } ==> offset == kept.len()
            &&& action matches DownloadAction::FetchAfter { offset, .. } ==> offset == kept.len()
        },
{
    law_download_stays_in_step(file, existing, partial, events);
    if let Some(course) = download_run(file, existing, partial, events) {
        if course.state.awaits(event) && tells_truth(file, existing, course.partial, event) {
            lemma_step_keeps_in_step(file, existing, course, event);
        }
    }
}

/// A partial file that is already whole, with the right digest, takes the file's place without
/// another request. One that is as long but wrong does not: as for any other partial file, the
/// server is asked for what follows it, and what is there is checked once more at the end.
pub proof fn law_whole_partial_file_is_installed(
    file: ManifestFile,
    state: DownloadState,
    hash: ContentHash,
)
    requires
        state.received == file.size,
        hash@.len() == file.size,
    ensures
        is_file(hash@, file) ==> download_action(file, state, DownloadEvent::Hashed(hash))
            is Install && download_report(file, state, DownloadEvent::Hashed(hash)) == Some(
            file.size,
        ),
        !is_file(hash@, file) ==> download_action(file, state, DownloadEvent::Hashed(hash))
            == (DownloadAction::Fetch { offset: file.size, discard: false }),
{
}

/// A file that is there already, with the right length and digest, is not downloaded again.
pub proof fn law_valid_file_is_kept(file: ManifestFile, state: DownloadState, hash: ContentHash)
    requires
        is_file(hash@, file),
    ensures
        download_action(file, state, DownloadEvent::Checked(Some(hash))) is Done,
        download_report(file, state, DownloadEvent::Checked(Some(hash))) == Some(file.size),
{
}

/// A cancelled download gives up, whichever event brings the news. The one exception is a first
/// reply that ignores the range it was asked for: the whole file is requested, and the reply to
/// that brings the news again.
pub proof fn law_cancelled_download_stops(file: ManifestFile, state: DownloadState, bytes: &[u8])
    ensures
        download_action(file, state, DownloadEvent::Begin { cancelled: true })
            == DownloadAction::Fail(InstallError::Cancelled),
        download_action(file, state, DownloadEvent::Chunk { bytes, cancelled: true })
            == DownloadAction::Fail(InstallError::Cancelled),
        forall|status: u16|
            #![trigger download_action(
                file,
                state,
                DownloadEvent::Answered { status, cancelled: true },
            )]
            {
                let action = download_action(
                    file,
                    state,
                    DownloadEvent::Answered { status, cancelled: true },
                );
                action == DownloadAction::Fail(InstallError::Cancelled) || (state.stage is Requested
                    && action == DownloadAction::Fetch { offset: 0, discard: true })
            },
{
}

/// An interrupted download goes on where it stopped, whether its reply broke off or ended, and
/// however many bytes are there: it waits half a second longer each time. It gives up only once it
/// has been taken up again six times.
pub proof fn law_interrupted_download_goes_on(
    file: ManifestFile,
    state: DownloadState,
    broken: bool,
)
    requires
        state.received < file.size,
    ensures
        ({
            let event = DownloadEvent::Ended { broken };
            let action = download_action(file, state, event);
            let after = download_after(file, state, event);
            &&& state.reconnects < 6 ==> {
                &&& action matches DownloadAction::FetchAfter { millis, offset } && offset
                    == state.received && millis == 500 * (state.reconnects + 1)
                &&& after.stage is Reconnecting
                &&& after.reconnects == state.reconnects + 1
                &&& after.received == state.received
                &&& after.content == state.content
            }
            &&& action is Fail ==> state.reconnects >= 6
            &&& state.reconnects >= 6 ==> action == if broken {
                DownloadAction::Fail(InstallError::Disconnected(file.path))
            } else {
                DownloadAction::Fail(InstallError::EndedEarly(file.path))
            }
            &&& download_report(file, state, event) is None
        }),
{
}

/// Once a reply has ended, a download with as many bytes as the file has takes the file's place if
/// and only if they have the digest that the manifest gives, whether or not the reply broke off. One
/// with more bytes fails.
pub proof fn law_ended_download_is_checked(file: ManifestFile, state: DownloadState, broken: bool)
    requires
        state.content.len() == state.received,
        state.received >= file.size,
    ensures
        ({
            let event = DownloadEvent::Ended { broken };
            let action = download_action(file, state, event);
            &&& state.received > file.size ==> action == DownloadAction::Fail(
                InstallError::TooLarge(file.path),
            )
            &&& state.received == file.size ==> (action is Install <==> has_digest(
                state.content,
                file.sha256@,
            ))
            &&& state.received == file.size && !(action is Install) ==> action
                == DownloadAction::Fail(InstallError::Corrupt(file.path))
            &&& action is Install ==> download_after(file, state, event).stage is Placing
            &&& download_report(file, state, event) is None
        }),
{
}

/// What is there of a partial file is kept and taken into account, unless it is longer than the
/// file: the download goes on after it.
pub proof fn law_partial_file_is_taken_up(
    file: ManifestFile,
    state: DownloadState,
    length: u64,
    hash: ContentHash,
)
    requires
        state.received == 0,
        hash@.len() == length,
    ensures
        ({
            let measured = download_action(file, state, DownloadEvent::Measured(length));
            let then = download_after(file, state, DownloadEvent::Measured(length));
            &&& length > file.size ==> measured == (DownloadAction::Fetch {
                offset: 0,
                discard: true,
            }) && then == (DownloadState { stage: Stage::Requested, ..state })
            &&& length == 0 ==> measured == (DownloadAction::Fetch { offset: 0, discard: false })
                && then == (DownloadState { stage: Stage::Requested, ..state })
            &&& 0 < length <= file.size ==> {
                let next = download_action(file, then, DownloadEvent::Hashed(hash));
                let after = download_after(file, then, DownloadEvent::Hashed(hash));
                let report = download_report(file, then, DownloadEvent::Hashed(hash));
                &&& measured is HashPartial
                &&& then == (DownloadState { stage: Stage::Hashing, received: length, ..state })
                &&& report == if next is Install {
                    Some(file.size)
                } else {
                    None
                }
                &&& length < file.size || !has_digest(hash@, file.sha256@) ==> next == (
                DownloadAction::Fetch { offset: length, discard: false }) && after.received == length
                    && after.content == hash@ && after.stage is Requested
                &&& length == file.size && has_digest(hash@, file.sha256@) ==> next is Install
            }
        }),
{
}

/// A reply is received unless it holds the whole file where a part was asked for. The first such
/// reply is given up for a request for the whole file, without what was there; a later one ends the
/// download.
pub proof fn law_reply_is_received(file: ManifestFile, state: DownloadState, status: u16)
    requires
        state.stage is Requested || state.stage is Reconnecting,
    ensures
        ({
            let event = DownloadEvent::Answered { status, cancelled: false };
            let action = download_action(file, state, event);
            let after = download_after(file, state, event);
            &&& state.received == 0 ==> action == (DownloadAction::Receive { append: false })
            &&& state.received > 0 && status == 206 ==> action == (DownloadAction::Receive {
                append: true,
            })
            &&& action is Receive ==> after == (DownloadState { stage: Stage::Receiving, ..state })
            &&& state.received > 0 && status != 206 && state.stage is Requested ==> action == (
            DownloadAction::Fetch { offset: 0, discard: true }) && after.received == 0
                && after.content.len() == 0 && after.stage is Requested && after.reconnects
                == state.reconnects
            &&& state.received > 0 && status != 206 && state.stage is Reconnecting ==> action
                == DownloadAction::Fail(InstallError::NotResumable(file.path))
            &&& download_report(file, state, event) == if state.stage is Requested && action
                is Receive {
                Some(state.received)
            } else {
                None
            }
            &&& {
                let news = DownloadEvent::Answered { status, cancelled: true };
                let stopped = download_action(file, state, news);
                let again = state.received > 0 && status != 206 && state.stage is Requested;
                &&& again ==> stopped == action && download_report(file, state, news) is None
                &&& !again ==> stopped == DownloadAction::Fail(InstallError::Cancelled)
                &&& !again ==> download_report(file, state, news) == if state.stage is Requested {
                    Some(state.received)
                } else {
                    None
                }
            }
        }),
{
}

/// Every byte that comes is written, counted and reported, after all that came before.
pub proof fn law_every_byte_counts(file: ManifestFile, state: DownloadState, bytes: &[u8])
    requires
        state.received + bytes@.len() <= u64::MAX,
    ensures
        ({
            let event = DownloadEvent::Chunk { bytes, cancelled: false };
            let after = download_after(file, state, event);
            &&& download_action(file, state, event) is Write
            &&& after.received == state.received + bytes@.len()
            &&& after.content == state.content + bytes@
            &&& after.stage == state.stage
            &&& after.reconnects == state.reconnects
            &&& download_report(file, state, event) == Some(after.received)
            &&& download_report(file, state, DownloadEvent::Chunk { bytes, cancelled: true }) is None
        }),
{
}

/// How a download begins and ends: unless it was cancelled, it looks at the file first, takes one
/// that is not as it should be for no reason to give up, and is done once the partial file has taken
/// the file's place. What fails on the way ends it with that failure.
pub proof fn law_download_begins_and_ends(
    file: ManifestFile,
    state: DownloadState,
    content: Option<ContentHash>,
    error: InstallError,
)
    ensures
        download_action(file, state, DownloadEvent::Begin { cancelled: false }) is CheckExisting,
        download_after(file, state, DownloadEvent::Begin { cancelled: false }) == (DownloadState {
            stage: Stage::Checking,
            ..state
        }),
        content is None ==> download_action(file, state, DownloadEvent::Checked(content))
            is MeasurePartial,
        content matches Some(hash) && (hash@.len() != file.size || !has_digest(
            hash@,
            file.sha256@,
        )) ==> download_action(file, state, DownloadEvent::Checked(content)) is MeasurePartial,
        download_action(file, state, DownloadEvent::Placed(Ok(()))) is Done,
        download_action(file, state, DownloadEvent::Placed(Err(error))) == DownloadAction::Fail(
            error,
        ),
        download_action(file, state, DownloadEvent::Broken(error)) == DownloadAction::Fail(error),
        download_action(file, state, DownloadEvent::Checked(content)) is MeasurePartial
            ==> download_after(file, state, DownloadEvent::Checked(content)) == (DownloadState {
            stage: Stage::Measuring,
            ..state
        }) && download_report(file, state, DownloadEvent::Checked(content)) is None,
        download_report(file, state, DownloadEvent::Begin { cancelled: false }) is None,
        download_report(file, state, DownloadEvent::Placed(Ok(()))) is None,
        download_report(file, state, DownloadEvent::Broken(error)) is None,
        download_after(file, state, DownloadEvent::Broken(error)).stage is Finished,
        download_after(file, state, DownloadEvent::Placed(Ok(()))).stage is Finished,
{
}

/// Bytes are the file that a manifest describes exactly if they are as many and have its digest.
pub proof fn law_file_is_known_by_length_and_digest(bytes: Seq<u8>, file: ManifestFile)
    ensures
        is_file(bytes, file) <==> bytes.len() == file.size && has_digest(bytes, file.sha256@),
{
}

/// A file that the server has is installed, however much of its start is there already: the bytes
/// that are asked for complete it, and the download is done without another request.
pub proof fn law_served_file_is_installed(
    file: ManifestFile,
    partial: Seq<u8>,
    hash: ContentHash,
    rest: &[u8],
)
    requires
        0 < partial.len() < file.size,
        hash.wf(),
        hash@ == partial,
        is_file(partial + rest@, file),
    ensures
        ({
            let events = seq![
                DownloadEvent::Begin { cancelled: false },
                DownloadEvent::Checked(None),
                DownloadEvent::Measured(partial.len() as u64),
                DownloadEvent::Hashed(hash),
                DownloadEvent::Answered { status: 206, cancelled: false },
                DownloadEvent::Chunk { bytes: rest, cancelled: false },
                DownloadEvent::Ended { broken: false },
            ];
            download_run(file, None, partial, events) matches Some(course) && course.state.stage
                is Placing && course.partial == partial + rest@ && course.counted == file.size
        }),
{
    let begun = DownloadEvent::Begin { cancelled: false };
    let checked = DownloadEvent::Checked(None);
    let measured = DownloadEvent::Measured(partial.len() as u64);
    let hashed = DownloadEvent::Hashed(hash);
    let answered = DownloadEvent::Answered { status: 206, cancelled: false };
    let chunk = DownloadEvent::Chunk { bytes: rest, cancelled: false };
    let ended = DownloadEvent::Ended { broken: false };
    let none = Seq::<DownloadEvent>::empty();
    let one = none.push(begun);
    let two = one.push(checked);
    let three = two.push(measured);
    let four = three.push(hashed);
    let five = four.push(answered);
    let six = five.push(chunk);
    let seven = six.push(ended);
    assert(one.drop_last() =~= none);
    assert(two.drop_last() =~= one);
    assert(three.drop_last() =~= two);
    assert(four.drop_last() =~= three);
    assert(five.drop_last() =~= four);
    assert(six.drop_last() =~= five);
    assert(seven.drop_last() =~= six);
    assert(seven =~= seq![begun, checked, measured, hashed, answered, chunk, ended]);
    assert(download_run(file, None, partial, none) == Some(
        Course { state: unbegun(), partial, reported: 0, counted: 0 },
    ));
    let a = download_run(file, None, partial, one);
    let b = download_run(file, None, partial, two);
    let c = download_run(file, None, partial, three);
    let d = download_run(file, None, partial, four);
    let e = download_run(file, None, partial, five);
    let f = download_run(file, None, partial, six);
    assert(a is Some && a->Some_0.partial == partial);
    assert(b is Some && b->Some_0.partial == partial);
    assert(c is Some && c->Some_0.partial == partial && c->Some_0.state.received == partial.len());
    assert(d is Some && d->Some_0.state.content == partial);
    assert(e is Some && e->Some_0.state.content == partial);
    assert(f is Some && f->Some_0.state.content == partial + rest@);
}

/// When a download waits for what.
pub proof fn law_what_a_download_awaits(state: DownloadState, event: DownloadEvent)
    ensures
        ({
            let stage = state.stage;
            match event {
                DownloadEvent::Begin { .. } => state.awaits(event) <==> stage is Start,
                DownloadEvent::Checked(content) => state.awaits(event) <==> stage is Checking && (
                content matches Some(hash) ==> hash.wf()),
                DownloadEvent::Measured(_) => state.awaits(event) <==> stage is Measuring,
                DownloadEvent::Hashed(hash) => state.awaits(event) <==> stage is Hashing
                    && hash.wf(),
                DownloadEvent::Answered { .. } => state.awaits(event) <==> stage is Requested
                    || stage is Reconnecting,
                DownloadEvent::Chunk { bytes, .. } => state.awaits(event) <==> stage is Receiving
                    && state.received + bytes@.len() <= u64::MAX,
                DownloadEvent::Ended { .. } => state.awaits(event) <==> stage is Receiving,
                DownloadEvent::Placed(_) => state.awaits(event) <==> stage is Placing,
                DownloadEvent::Broken(_) => state.awaits(event) <==> !(stage is Finished),
            }
        }),
{
}

/// A file is requested three times before a request fails, an interrupted download taken up again six
/// times, and a part of a file comes with its own status.
pub proof fn law_limits_of_a_download()
    ensures
        ATTEMPTS == 3,
        RECONNECTS == 6,
        PARTIAL_CONTENT == 206,
{
}

/// What is there of a file is valid exactly if it is the file; where nothing is there, nothing is.
pub proof fn law_valid_content(hash: ContentHash, file: ManifestFile)
    ensures
        is_valid_content(Some(hash), file) <==> hash@.len() == file.size && has_digest(
            hash@,
            file.sha256@,
        ),
        !is_valid_content(None, file),
        unbegun().stage is Start && unbegun().received == 0 && unbegun().reconnects == 0
            && unbegun().content.len() == 0,
{
}

} // verus!
