//! An installation from its plan to its end: which files are downloaded, what is reported, which
//! prerequisites are run, and when it fails.
//!
//! What has to be done with disk, network and other programs is decided here, step by step, from
//! what came of the steps before.

use crate::address::{
    asset_url, fits, formed_address, is_address, key_fits, object_key, origin_fits, LONGEST_ORIGIN,
};
use crate::download::{
    download_action, download_run, is_file, law_installed_file_is_verified, tells_truth,
    DownloadEvent,
};
use crate::errors::InstallError;
use crate::models::{
    still, DownloadPlan, InstallPhase, InstallProgress, ManifestFile, Prerequisite, ProgressState,
};
use crate::path::{
    is_bare_drive, is_safe, join_path, joined_path, law_joined_path_stays_below,
    law_partial_path_stays_below, lemma_not_a_bare_drive, lemma_one_segment,
    lemma_plain_name_is_safe, lemma_stays_below_outer, partial_of, path_segments, safe_join,
    stays_below,
};
use crate::prerequisite::{
    call_count, ensure_success, folder_of_prerequisites, folder_to_unpack_to, is_identifier,
    lemma_identifier_is_a_name, prerequisite_call, prerequisite_calls, prerequisite_folder,
    random_identifier, unpacking_folder, Call, CommandLine, ProgramEnd,
};
use crate::text::joined;
use crate::transfer::{
    law_percentage_never_falls, law_share_of_download, percent_of, progress, Transfer,
    TransferState, DOWNLOAD_SHARE,
};
use vstd::prelude::*;

verus! {

broadcast use vstd::string::group_string_axioms;

/// How many files of an installation are downloaded at a time.
pub const PARALLEL_DOWNLOADS: usize = 8;

/// How often an installation reports on its downloads, in milliseconds.
pub const REPORT_INTERVAL: u64 = 160;

/// Where a file is downloaded from, and where to.
#[derive(Debug)]
pub struct FileJob {
    pub destination: String,
    pub url: String,
}

/// Whether a file can be placed, and has an address.
pub open spec fn has_job(origin: Seq<char>, content_addressed: bool, file: ManifestFile) -> bool {
    is_safe(file.path@) && formed_address(origin, object_key(content_addressed, file)) matches Ok(
        Some(_),
    )
}

/// Whether `r` is where a file is downloaded from and to, or the reason why it cannot be. That a
/// path is unsafe comes before anything about its address.
pub open spec fn is_job(
    r: Result<FileJob, InstallError>,
    root: Seq<char>,
    origin: Seq<char>,
    content_addressed: bool,
    file: ManifestFile,
) -> bool {
    let key = object_key(content_addressed, file);
    if is_safe(file.path@) {
        match r {
            Ok(job) => job.destination@ == joined_path(root, file.path@) && is_address(
                Ok(job.url),
                origin,
                key,
            ),
            Err(error) => is_address(Err(error), origin, key),
        }
    } else {
        r matches Err(error) && error is UnsafePath
    }
}

/// Where a file is downloaded from, and where to.
pub fn file_job(root: &str, origin: &str, content_addressed: bool, file: &ManifestFile) -> (r:
    Result<FileJob, InstallError>)
    requires
        origin@.len() <= LONGEST_ORIGIN,
        key_fits(*file),
    ensures
        is_job(r, root@, origin@, content_addressed, *file),
        r is Ok <==> has_job(origin@, content_addressed, *file),
{
    let destination = match safe_join(root, file.path.as_str()) {
        Ok(destination) => destination,
        Err(error) => return Err(error),
    };
    let key = if content_addressed {
        file.sha256.as_str()
    } else {
        file.path.as_str()
    };
    match asset_url(origin, key) {
        Ok(url) => Ok(FileJob { destination, url }),
        Err(error) => Err(error),
    }
}

/// Whether every address of a plan is short enough to be formed.
pub open spec fn addresses_fit(plan: DownloadPlan) -> bool {
    &&& plan.file_base_url@.len() <= LONGEST_ORIGIN
    &&& plan.prerequisite_base_url@.len() <= LONGEST_ORIGIN
    &&& forall|i: int|
        0 <= i < plan.manifest.files@.len() ==> key_fits(#[trigger] plan.manifest.files@[i])
    &&& forall|i: int|
        0 <= i < plan.manifest.prerequisites@.len() ==> key_fits(
            (#[trigger] plan.manifest.prerequisites@[i]).file,
        )
}

/// Whether every address of a plan is short enough to be formed.
pub fn plan_fits(plan: &DownloadPlan) -> (r: bool)
    ensures
        r == addresses_fit(*plan),
{
    if !origin_fits(plan.file_base_url.as_str()) || !origin_fits(
        plan.prerequisite_base_url.as_str(),
    ) {
        return false;
    }
    let files = &plan.manifest.files;
    let mut i: usize = 0;
    while i < files.len()
        invariant
            i <= files@.len(),
            files@ == plan.manifest.files@,
            forall|j: int| 0 <= j < i ==> key_fits(#[trigger] files@[j]),
        decreases files@.len() - i,
    {
        if !fits(&files[i]) {
            assert(!key_fits(plan.manifest.files@[i as int]));
            return false;
        }
        i = i + 1;
    }
    let prerequisites = &plan.manifest.prerequisites;
    let mut k: usize = 0;
    while k < prerequisites.len()
        invariant
            k <= prerequisites@.len(),
            prerequisites@ == plan.manifest.prerequisites@,
            forall|j: int| 0 <= j < k ==> key_fits((#[trigger] prerequisites@[j]).file),
        decreases prerequisites@.len() - k,
    {
        if !fits(&prerequisites[k].file) {
            assert(!key_fits(plan.manifest.prerequisites@[k as int].file));
            return false;
        }
        k = k + 1;
    }
    true
}

/// What an installation waits for.
#[derive(Clone, Copy, PartialEq, Eq, Structural)]
pub enum InstallStage {
    /// The files of the game.
    Downloading,
    /// To go on with the next prerequisite, if one is left.
    Prerequisites,
    /// A prerequisite to be downloaded.
    Fetching,
    /// The folder that a prerequisite unpacks another installer to.
    Unpacking,
    /// A program of a prerequisite to end.
    Running,
    /// The installation to be recorded.
    Recording,
    /// Nothing: it has come to an end.
    Finished,
}

/// What happened to an installation.
pub enum InstallEvent {
    /// There is room for the download of another file.
    FileDue { cancelled: bool },
    /// A file of which `before` bytes were there now has `bytes` there.
    FileAdvanced { before: u64, bytes: u64 },
    /// The download of a file has come to its end.
    FileEnded(Result<(), InstallError>),
    /// Time to report, at a moment in nanoseconds.
    Tick { now: u64, cancelled: bool },
    /// All files are there.
    FilesDone,
    /// Time to go on with the prerequisites.
    PrerequisiteDue { cancelled: bool },
    /// The download of a prerequisite has come to its end. The identifier is for a folder to unpack
    /// to, where one is needed.
    PrerequisiteFetched { result: Result<(), InstallError>, identifier: String },
    /// The folder to unpack to has been made, or could not be.
    FolderMade(Result<(), InstallError>),
    /// A program of a prerequisite has ended, or could not be run.
    ProgramEnded(Result<ProgramEnd, InstallError>),
    /// The installation has been recorded, or could not be.
    Recorded(Result<(), InstallError>),
}

/// What to do next for an installation.
pub enum InstallAction {
    /// Download the file that was due.
    DownloadFile(FileJob),
    /// Wait for whatever happens next.
    Wait,
    /// Go on with the prerequisites, once the folder that the last one unpacked to is removed, if
    /// there is one and it can be.
    NextPrerequisite { clear: Option<String> },
    /// Download the prerequisite that was due.
    FetchPrerequisite(FileJob),
    /// Make the folder that the prerequisite unpacks another installer to.
    MakeFolder(String),
    /// Run a program of the prerequisite.
    RunProgram(CommandLine),
    /// Record the installation.
    Record,
    /// Nothing more: the game is installed.
    Done,
    /// Give up.
    Fail(InstallError),
}

/// How far an installation has come.
pub struct InstallState {
    pub stage: InstallStage,
    pub transfer: TransferState,
    /// How many files have been begun.
    pub begun: nat,
    /// How many files are there, each of them verified.
    pub ended: nat,
    /// How many prerequisites have been installed.
    pub installed: nat,
    /// How many programs of the prerequisite that is due have ended with success.
    pub called: nat,
    /// What the folder that it unpacks to is called after.
    pub identifier: Seq<char>,
}

/// An installation of which nothing is there.
pub open spec fn fresh_install(plan: DownloadPlan) -> InstallState {
    InstallState {
        stage: InstallStage::Downloading,
        transfer: TransferState {
            total: plan.manifest.total_size_bytes,
            completed: 0,
            active: 0,
            current: Seq::empty(),
            samples: Seq::empty(),
        },
        begun: 0,
        ended: 0,
        installed: 0,
        called: 0,
        identifier: Seq::empty(),
    }
}

impl InstallState {
    /// The same installation, waiting for something else.
    pub open spec fn at(self, stage: InstallStage) -> InstallState {
        InstallState { stage, ..self }
    }

    /// What holds of an installation from its plan on.
    pub open spec fn sound(self, plan: DownloadPlan) -> bool {
        &&& self.ended <= self.begun <= plan.manifest.files@.len()
        &&& self.installed <= plan.manifest.prerequisites@.len()
        &&& self.transfer.active <= PARALLEL_DOWNLOADS
        &&& self.transfer.total == plan.manifest.total_size_bytes
        &&& self.stage is Downloading ==> self.transfer.active == self.begun - self.ended
        &&& self.stage is Downloading ==> self.installed == 0
        &&& self.stage is Fetching || self.stage is Unpacking || self.stage is Running
            ==> self.installed < plan.manifest.prerequisites@.len()
        &&& !(self.stage is Running || self.stage is Finished) ==> self.called == 0
        &&& self.stage is Running ==> self.called < call_count(self.prerequisite(plan))
        &&& self.stage is Recording ==> self.installed == plan.manifest.prerequisites@.len()
        &&& !(self.stage is Downloading || self.stage is Finished) ==> self.ended
            == plan.manifest.files@.len()
    }

    /// Whether the event is one that the installation waits for.
    pub open spec fn awaits(self, plan: DownloadPlan, event: InstallEvent) -> bool {
        match event {
            InstallEvent::FileDue { .. } => self.stage is Downloading && self.begun
                < plan.manifest.files@.len() && self.transfer.active < PARALLEL_DOWNLOADS,
            InstallEvent::FileAdvanced { .. } => self.stage is Downloading,
            InstallEvent::FileEnded(_) => self.stage is Downloading && self.transfer.active > 0,
            InstallEvent::Tick { .. } => self.stage is Downloading,
            InstallEvent::FilesDone => self.stage is Downloading && self.ended
                == plan.manifest.files@.len(),
            InstallEvent::PrerequisiteDue { .. } => self.stage is Prerequisites,
            InstallEvent::PrerequisiteFetched { .. } => self.stage is Fetching,
            InstallEvent::FolderMade(_) => self.stage is Unpacking,
            InstallEvent::ProgramEnded(_) => self.stage is Running,
            InstallEvent::Recorded(_) => self.stage is Recording,
        }
    }

    /// The file that is due.
    pub open spec fn file(self, plan: DownloadPlan) -> ManifestFile {
        plan.manifest.files@[self.begun as int]
    }

    /// The prerequisite that is due.
    pub open spec fn prerequisite(self, plan: DownloadPlan) -> Prerequisite {
        plan.manifest.prerequisites@[self.installed as int]
    }

    /// What there is to run for the prerequisite that is due, in order.
    pub open spec fn calls(self, plan: DownloadPlan, target: Seq<char>) -> Seq<Call> {
        prerequisite_calls(
            self.prerequisite(plan),
            joined_path(folder_of_prerequisites(target), self.prerequisite(plan).file.path@),
            unpacking_folder(target, self.identifier),
        )
    }

    /// The installation once another program of the prerequisite that is due has ended with
    /// success.
    pub open spec fn program_succeeded(self, plan: DownloadPlan) -> InstallState {
        if self.called + 1 < call_count(self.prerequisite(plan)) {
            InstallState { called: self.called + 1, ..self }
        } else {
            InstallState {
                stage: InstallStage::Prerequisites,
                installed: self.installed + 1,
                called: 0,
                ..self
            }
        }
    }
}

/// How far an installation has come after an event.
pub open spec fn install_after(
    plan: DownloadPlan,
    state: InstallState,
    event: InstallEvent,
) -> InstallState {
    match event {
        InstallEvent::FileDue { cancelled } => if cancelled {
            state.at(InstallStage::Finished)
        } else {
            InstallState {
                stage: if has_job(plan.file_base_url@, plan.content_addressed, state.file(plan)) {
                    InstallStage::Downloading
                } else {
                    InstallStage::Finished
                },
                transfer: state.transfer.begun(state.file(plan).path@),
                begun: state.begun + 1,
                ..state
            }
        },
        InstallEvent::FileAdvanced { before, bytes } => InstallState {
            transfer: state.transfer.advanced(before, bytes),
            ..state
        },
        InstallEvent::FileEnded(result) => match result {
            Ok(()) => InstallState {
                transfer: state.transfer.ended(),
                ended: state.ended + 1,
                ..state
            },
            Err(_) => InstallState {
                stage: InstallStage::Finished,
                transfer: state.transfer.ended(),
                ..state
            },
        },
        InstallEvent::Tick { now, cancelled } => if cancelled {
            state.at(InstallStage::Finished)
        } else {
            InstallState {
                transfer: TransferState {
                    samples: state.transfer.sampled(now),
                    ..state.transfer
                },
                ..state
            }
        },
        InstallEvent::FilesDone => state.at(InstallStage::Prerequisites),
        InstallEvent::PrerequisiteDue { cancelled } => if state.installed
            == plan.manifest.prerequisites@.len() {
            state.at(InstallStage::Recording)
        } else if !cancelled && has_job(
            plan.prerequisite_base_url@,
            plan.content_addressed,
            state.prerequisite(plan).file,
        ) {
            state.at(InstallStage::Fetching)
        } else {
            state.at(InstallStage::Finished)
        },
        InstallEvent::PrerequisiteFetched { result, identifier } => match result {
            Ok(()) => InstallState {
                stage: if state.prerequisite(plan).extracted is Some {
                    InstallStage::Unpacking
                } else {
                    InstallStage::Running
                },
                identifier: identifier@,
                ..state
            },
            Err(_) => state.at(InstallStage::Finished),
        },
        InstallEvent::FolderMade(result) => match result {
            Ok(()) => state.at(InstallStage::Running),
            Err(_) => state.at(InstallStage::Finished),
        },
        InstallEvent::ProgramEnded(result) => match result {
            Ok(end) => if end.success {
                state.program_succeeded(plan)
            } else {
                state.at(InstallStage::Finished)
            },
            Err(_) => state.at(InstallStage::Finished),
        },
        InstallEvent::Recorded(_) => state.at(InstallStage::Finished),
    }
}

/// What a report says, if there is one.
pub open spec fn shown(report: Option<InstallProgress>) -> Option<ProgressState> {
    match report {
        Some(report) => Some(report@),
        None => None,
    }
}

/// What there is to report when it is time to go on with the prerequisites, of which the given
/// number are installed.
pub open spec fn prerequisite_report(
    plan: DownloadPlan,
    installed: nat,
    cancelled: bool,
) -> Option<ProgressState> {
    if cancelled || installed == plan.manifest.prerequisites@.len() {
        None
    } else {
        Some(
            still(
                InstallPhase::Prerequisites,
                97,
                "Installing "@ + plan.manifest.prerequisites@[installed as int].name@,
                0,
                0,
            ),
        )
    }
}

/// Whether `action` is what to do when it is time to go on with the prerequisites, of which the
/// given number are installed.
pub open spec fn is_prerequisite_action(
    action: InstallAction,
    plan: DownloadPlan,
    target: Seq<char>,
    installed: nat,
    cancelled: bool,
) -> bool {
    let folder = folder_of_prerequisites(target);
    let file = plan.manifest.prerequisites@[installed as int].file;
    let origin = plan.prerequisite_base_url@;
    if installed == plan.manifest.prerequisites@.len() {
        action is Record
    } else if cancelled {
        action == InstallAction::Fail(InstallError::Cancelled)
    } else {
        match action {
            InstallAction::FetchPrerequisite(job) => is_job(
                Ok(job),
                folder,
                origin,
                plan.content_addressed,
                file,
            ),
            InstallAction::Fail(error) => is_job(
                Err(error),
                folder,
                origin,
                plan.content_addressed,
                file,
            ),
            _ => false,
        }
    }
}

/// What there is to report after an event.
pub open spec fn install_report(
    plan: DownloadPlan,
    state: InstallState,
    event: InstallEvent,
) -> Option<ProgressState> {
    let total = plan.manifest.total_size_bytes;
    match event {
        InstallEvent::Tick { now, cancelled } => if cancelled {
            None
        } else {
            Some(state.transfer.report(now))
        },
        InstallEvent::FilesDone => Some(
            still(
                InstallPhase::Verifying,
                95,
                "All files verified"@,
                state.transfer.done(),
                total,
            ),
        ),
        InstallEvent::PrerequisiteDue { cancelled } => prerequisite_report(
            plan,
            state.installed,
            cancelled,
        ),
        InstallEvent::Recorded(Ok(())) => Some(
            still(InstallPhase::Complete, 100, plan.game.title@ + " is ready"@, total, total),
        ),
        _ => None,
    }
}

/// Whether `action` is to run the next program of the prerequisite that is due.
pub open spec fn runs_next(
    action: InstallAction,
    plan: DownloadPlan,
    target: Seq<char>,
    state: InstallState,
) -> bool {
    action matches InstallAction::RunProgram(line) && line@ == state.calls(
        plan,
        target,
    )[state.called as int]
}

/// Whether `action` is to go on with the prerequisites after the one that was due, once the folder
/// that it unpacked to is removed, if it did.
pub open spec fn goes_on(
    action: InstallAction,
    plan: DownloadPlan,
    target: Seq<char>,
    state: InstallState,
) -> bool {
    action matches InstallAction::NextPrerequisite { clear } && match clear {
        Some(folder) => state.prerequisite(plan).extracted is Some && folder@ == unpacking_folder(
            target,
            state.identifier,
        ),
        None => state.prerequisite(plan).extracted is None,
    }
}

/// Whether `action` is what to do after an event, for a game that is installed to `target`.
pub open spec fn is_install_action(
    action: InstallAction,
    plan: DownloadPlan,
    target: Seq<char>,
    state: InstallState,
    event: InstallEvent,
) -> bool {
    match event {
        InstallEvent::FileDue { cancelled } => if cancelled {
            action == InstallAction::Fail(InstallError::Cancelled)
        } else {
            match action {
                InstallAction::DownloadFile(job) => is_job(
                    Ok(job),
                    target,
                    plan.file_base_url@,
                    plan.content_addressed,
                    state.file(plan),
                ),
                InstallAction::Fail(error) => is_job(
                    Err(error),
                    target,
                    plan.file_base_url@,
                    plan.content_addressed,
                    state.file(plan),
                ),
                _ => false,
            }
        },
        InstallEvent::FileAdvanced { .. } => action is Wait,
        InstallEvent::FileEnded(Ok(())) => action is Wait,
        InstallEvent::FileEnded(Err(error)) => action == InstallAction::Fail(error),
        InstallEvent::Tick { cancelled, .. } => if cancelled {
            action == InstallAction::Fail(InstallError::Cancelled)
        } else {
            action is Wait
        },
        InstallEvent::FilesDone => action matches InstallAction::NextPrerequisite { clear } && clear
            is None,
        InstallEvent::PrerequisiteDue { cancelled } => is_prerequisite_action(
            action,
            plan,
            target,
            state.installed,
            cancelled,
        ),
        InstallEvent::PrerequisiteFetched { result: Ok(()), identifier } => if state.prerequisite(
            plan,
        ).extracted is Some {
            action matches InstallAction::MakeFolder(folder) && folder@ == unpacking_folder(
                target,
                identifier@,
            )
        } else {
            runs_next(action, plan, target, install_after(plan, state, event))
        },
        InstallEvent::PrerequisiteFetched { result: Err(error), .. } => action
            == InstallAction::Fail(error),
        InstallEvent::FolderMade(Ok(())) => runs_next(action, plan, target, state),
        InstallEvent::FolderMade(Err(error)) => action == InstallAction::Fail(error),
        InstallEvent::ProgramEnded(Ok(end)) => if !end.success {
            action matches InstallAction::Fail(InstallError::Prerequisite(name, status)) && name@
                == state.prerequisite(plan).name@ && status == end.status
        } else if state.called + 1 < call_count(state.prerequisite(plan)) {
            runs_next(action, plan, target, install_after(plan, state, event))
        } else {
            goes_on(action, plan, target, state)
        },
        InstallEvent::ProgramEnded(Err(error)) => action == InstallAction::Fail(error),
        InstallEvent::Recorded(Ok(())) => action is Done,
        InstallEvent::Recorded(Err(error)) => action == InstallAction::Fail(error),
    }
}

/// The report that opens every installation, before its plan is there.
pub fn preparing() -> (r: InstallProgress)
    ensures
        r@ == still(InstallPhase::Preparing, 0, "Preparing a verified download"@, 0, 0),
{
    progress(InstallPhase::Preparing, 0, "Preparing a verified download", 0, 0, 0, 0)
}

/// An installation of a game.
pub struct Installation {
    plan: DownloadPlan,
    target: String,
    stage: InstallStage,
    transfer: Transfer,
    begun: usize,
    ended: usize,
    installed: usize,
    called: usize,
    identifier: String,
}

impl View for Installation {
    type V = InstallState;

    closed spec fn view(&self) -> InstallState {
        InstallState {
            stage: self.stage,
            transfer: self.transfer@,
            begun: self.begun as nat,
            ended: self.ended as nat,
            installed: self.installed as nat,
            called: self.called as nat,
            identifier: self.identifier@,
        }
    }
}

impl Installation {
    /// The plan that the installation follows.
    pub closed spec fn plan(self) -> DownloadPlan {
        self.plan
    }

    /// The folder that the game is installed to.
    pub closed spec fn target(self) -> Seq<char> {
        self.target@
    }

    /// What every step keeps.
    pub closed spec fn wf(self) -> bool {
        addresses_fit(self.plan) && self@.sound(self.plan)
    }

    /// An installation of which nothing is there.
    pub fn new(plan: DownloadPlan, target: &str) -> (r: Installation)
        requires
            addresses_fit(plan),
        ensures
            r.wf(),
            r.plan() == plan,
            r.target() == target@,
            r@ == fresh_install(plan),
    {
        let transfer = Transfer::new(plan.manifest.total_size_bytes);
        Installation {
            plan,
            target: target.to_owned(),
            stage: InstallStage::Downloading,
            transfer,
            begun: 0,
            ended: 0,
            installed: 0,
            called: 0,
            identifier: String::new(),
        }
    }

    /// The plan that the installation follows.
    pub fn follows(&self) -> (r: &DownloadPlan)
        ensures
            *r == self.plan(),
    {
        &self.plan
    }

    /// What the installation waits for.
    pub fn stage(&self) -> (r: InstallStage)
        ensures
            r == self@.stage,
    {
        self.stage
    }

    /// Whether there is room for the download of another file, and one is left.
    pub fn is_file_due(&self) -> (r: bool)
        ensures
            r == (self@.stage is Downloading && self@.begun < self.plan().manifest.files@.len()
                && self@.transfer.active < PARALLEL_DOWNLOADS),
    {
        self.stage == InstallStage::Downloading && self.begun < self.plan.manifest.files.len()
            && self.transfer.active() < PARALLEL_DOWNLOADS
    }

    /// Whether all files are there.
    pub fn has_all_files(&self) -> (r: bool)
        ensures
            r == (self@.ended == self.plan().manifest.files@.len()),
    {
        self.ended == self.plan.manifest.files.len()
    }

    /// Whether the event is one that the installation waits for.
    pub fn is_awaited(&self, event: &InstallEvent) -> (r: bool)
        ensures
            r == self@.awaits(self.plan(), *event),
    {
        match event {
            InstallEvent::FileDue { .. } => self.is_file_due(),
            InstallEvent::FileAdvanced { .. } => self.stage == InstallStage::Downloading,
            InstallEvent::FileEnded(_) => self.stage == InstallStage::Downloading
                && self.transfer.active() > 0,
            InstallEvent::Tick { .. } => self.stage == InstallStage::Downloading,
            InstallEvent::FilesDone => self.stage == InstallStage::Downloading
                && self.has_all_files(),
            InstallEvent::PrerequisiteDue { .. } => self.stage == InstallStage::Prerequisites,
            InstallEvent::PrerequisiteFetched { .. } => self.stage == InstallStage::Fetching,
            InstallEvent::FolderMade(_) => self.stage == InstallStage::Unpacking,
            InstallEvent::ProgramEnded(_) => self.stage == InstallStage::Running,
            InstallEvent::Recorded(_) => self.stage == InstallStage::Recording,
        }
    }

    /// The program of the prerequisite that is due which comes next.
    fn next_program(&self) -> (line: CommandLine)
        requires
            self.wf(),
            self@.stage is Running,
        ensures
            line@ == self@.calls(self.plan(), self.target())[self@.called as int],
    {
        let prerequisite = &self.plan.manifest.prerequisites[self.installed];
        let folder = prerequisite_folder(self.target.as_str());
        let file = join_path(folder.as_str(), prerequisite.file.path.as_str());
        let extraction = folder_to_unpack_to(self.target.as_str(), self.identifier.as_str());
        prerequisite_call(prerequisite, file.as_str(), extraction.as_str(), self.called)
    }

    /// How many files have been begun.
    pub fn begun(&self) -> (r: usize)
        ensures
            r == self@.begun,
    {
        self.begun
    }

    /// How many prerequisites have been installed.
    pub fn installed(&self) -> (r: usize)
        ensures
            r == self@.installed,
    {
        self.installed
    }
}

/// Goes on with the prerequisites of an installation: what to report, and what to do next. The
/// one after the given number of them is due.
pub fn install_prerequisites(
    plan: &DownloadPlan,
    target: &str,
    installed: usize,
    cancelled: bool,
) -> (r: (Option<InstallProgress>, InstallAction))
    requires
        addresses_fit(*plan),
        installed <= plan.manifest.prerequisites@.len(),
    ensures
        shown(r.0) == prerequisite_report(*plan, installed as nat, cancelled),
        is_prerequisite_action(r.1, *plan, target@, installed as nat, cancelled),
        r.1 is FetchPrerequisite <==> installed < plan.manifest.prerequisites@.len() && !cancelled
            && has_job(
            plan.prerequisite_base_url@,
            plan.content_addressed,
            plan.manifest.prerequisites@[installed as int].file,
        ),
{
    if installed == plan.manifest.prerequisites.len() {
        return (None, InstallAction::Record);
    }
    if cancelled {
        return (None, InstallAction::Fail(InstallError::Cancelled));
    }
    let prerequisite = &plan.manifest.prerequisites[installed];
    let detail = joined("Installing ", prerequisite.name.as_str());
    let report = progress(InstallPhase::Prerequisites, 97, detail.as_str(), 0, 0, 0, 0);
    let folder = prerequisite_folder(target);
    let action = match file_job(
        folder.as_str(),
        plan.prerequisite_base_url.as_str(),
        plan.content_addressed,
        &prerequisite.file,
    ) {
        Ok(job) => InstallAction::FetchPrerequisite(job),
        Err(error) => InstallAction::Fail(error),
    };
    (Some(report), action)
}

/// That the download of a prerequisite has come to its end, with an identifier for a folder to
/// unpack to. Which identifier is chance.
pub fn prerequisite_fetched(result: Result<(), InstallError>) -> (event: InstallEvent)
    ensures
        event matches InstallEvent::PrerequisiteFetched { result: told, identifier } && told == result
            && is_identifier(identifier@),
{
    InstallEvent::PrerequisiteFetched { result, identifier: random_identifier() }
}

/// Takes an installation on by one event: what to report, and what to do next.
pub fn install(installation: &mut Installation, event: InstallEvent) -> (r: (
    Option<InstallProgress>,
    InstallAction,
))
    requires
        old(installation).wf(),
        old(installation)@.awaits(old(installation).plan(), event),
    ensures
        final(installation).wf(),
        final(installation).plan() == old(installation).plan(),
        final(installation).target() == old(installation).target(),
        final(installation)@ == install_after(
            old(installation).plan(),
            old(installation)@,
            event,
        ),
        shown(r.0) == install_report(old(installation).plan(), old(installation)@, event),
        is_install_action(
            r.1,
            old(installation).plan(),
            old(installation).target(),
            old(installation)@,
            event,
        ),
{
    match event {
        InstallEvent::FileDue { cancelled } => {
            if cancelled {
                installation.stage = InstallStage::Finished;
                return (None, InstallAction::Fail(InstallError::Cancelled));
            }
            let file = &installation.plan.manifest.files[installation.begun];
            installation.transfer.begin_file(file.path.as_str());
            assert(installation.begun < installation.plan.manifest.files.len());
            installation.begun = installation.begun + 1;
            match file_job(
                installation.target.as_str(),
                installation.plan.file_base_url.as_str(),
                installation.plan.content_addressed,
                file,
            ) {
                Ok(job) => (None, InstallAction::DownloadFile(job)),
                Err(error) => {
                    installation.stage = InstallStage::Finished;
                    (None, InstallAction::Fail(error))
                },
            }
        },
        InstallEvent::FileAdvanced { before, bytes } => {
            installation.transfer.advance(before, bytes);
            (None, InstallAction::Wait)
        },
        InstallEvent::FileEnded(result) => {
            installation.transfer.end_file();
            match result {
                Ok(()) => {
                    installation.ended = installation.ended + 1;
                    (None, InstallAction::Wait)
                },
                Err(error) => {
                    installation.stage = InstallStage::Finished;
                    (None, InstallAction::Fail(error))
                },
            }
        },
        InstallEvent::Tick { now, cancelled } => {
            if cancelled {
                installation.stage = InstallStage::Finished;
                return (None, InstallAction::Fail(InstallError::Cancelled));
            }
            (Some(installation.transfer.tick(now)), InstallAction::Wait)
        },
        InstallEvent::FilesDone => {
            installation.stage = InstallStage::Prerequisites;
            let report = progress(
                InstallPhase::Verifying,
                95,
                "All files verified",
                installation.transfer.done(),
                installation.plan.manifest.total_size_bytes,
                0,
                0,
            );
            (Some(report), InstallAction::NextPrerequisite { clear: None })
        },
        InstallEvent::PrerequisiteDue { cancelled } => {
            let r = install_prerequisites(
                &installation.plan,
                installation.target.as_str(),
                installation.installed,
                cancelled,
            );
            installation.stage =
            match &r.1 {
                InstallAction::FetchPrerequisite(_) => InstallStage::Fetching,
                InstallAction::Record => InstallStage::Recording,
                _ => InstallStage::Finished,
            };
            r
        },
        InstallEvent::PrerequisiteFetched { result, identifier } => match result {
            Ok(()) => {
                installation.identifier = identifier;
                let unpacks =
                    installation.plan.manifest.prerequisites[installation.installed].extracted.is_some();
                if unpacks {
                    installation.stage = InstallStage::Unpacking;
                    let folder = folder_to_unpack_to(
                        installation.target.as_str(),
                        installation.identifier.as_str(),
                    );
                    (None, InstallAction::MakeFolder(folder))
                } else {
                    installation.stage = InstallStage::Running;
                    (None, InstallAction::RunProgram(installation.next_program()))
                }
            },
            Err(error) => {
                installation.stage = InstallStage::Finished;
                (None, InstallAction::Fail(error))
            },
        },
        InstallEvent::FolderMade(result) => match result {
            Ok(()) => {
                installation.stage = InstallStage::Running;
                (None, InstallAction::RunProgram(installation.next_program()))
            },
            Err(error) => {
                installation.stage = InstallStage::Finished;
                (None, InstallAction::Fail(error))
            },
        },
        InstallEvent::ProgramEnded(result) => {
            let end = match result {
                Ok(end) => end,
                Err(error) => {
                    installation.stage = InstallStage::Finished;
                    return (None, InstallAction::Fail(error));
                },
            };
            let prerequisite = &installation.plan.manifest.prerequisites[installation.installed];
            let unpacks = prerequisite.extracted.is_some();
            if let Err(error) = ensure_success(end.success, end.status, prerequisite.name.as_str()) {
                installation.stage = InstallStage::Finished;
                return (None, InstallAction::Fail(error));
            }
            if unpacks && installation.called == 0 {
                installation.called = 1;
                return (None, InstallAction::RunProgram(installation.next_program()));
            }
            installation.stage = InstallStage::Prerequisites;
            installation.called = 0;
            assert(installation.installed < installation.plan.manifest.prerequisites.len());
            installation.installed = installation.installed + 1;
            let clear = if unpacks {
                Some(
                    folder_to_unpack_to(
                        installation.target.as_str(),
                        installation.identifier.as_str(),
                    ),
                )
            } else {
                None
            };
            (None, InstallAction::NextPrerequisite { clear })
        },
        InstallEvent::Recorded(result) => {
            installation.stage = InstallStage::Finished;
            match result {
                Ok(()) => {
                    let detail = joined(installation.plan.game.title.as_str(), " is ready");
                    let total: u64 = installation.plan.manifest.total_size_bytes;
                    let report = progress(
                        InstallPhase::Complete,
                        100,
                        detail.as_str(),
                        total,
                        total,
                        0,
                        0,
                    );
                    (Some(report), InstallAction::Done)
                },
                Err(error) => (None, InstallAction::Fail(error)),
            }
        },
    }
}

/// Where an installation stands after a sequence of events, each of them awaited; nothing, if one
/// was not.
pub open spec fn install_run(plan: DownloadPlan, events: Seq<InstallEvent>) -> Option<InstallState>
    decreases events.len(),
{
    if events.len() == 0 {
        Some(fresh_install(plan))
    } else {
        match install_run(plan, events.drop_last()) {
            Some(state) => if state.awaits(plan, events.last()) {
                Some(install_after(plan, state, events.last()))
            } else {
                None
            },
            None => None,
        }
    }
}

/// However an installation went: no more than eight files are downloaded at a time, no file is
/// begun twice, and nothing comes after the downloads unless every file of the manifest is there.
pub proof fn law_installation_stays_sound(plan: DownloadPlan, events: Seq<InstallEvent>)
    ensures
        install_run(plan, events) matches Some(state) ==> state.sound(plan),
    decreases events.len(),
{
    if events.len() > 0 {
        law_installation_stays_sound(plan, events.drop_last());
    }
}

/// The folder for what is not part of the game lies below the folder that the game is installed
/// to, and is never a bare drive letter.
proof fn lemma_own_folder(target: Seq<char>)
    ensures
        !is_bare_drive(joined_path(target, ".preserve"@)),
        !is_bare_drive(target) ==> stays_below(target, joined_path(target, ".preserve"@))
            && path_segments(joined_path(target, ".preserve"@)).len() > path_segments(target).len(),
{
    let outer = joined_path(target, ".preserve"@);
    reveal_strlit(".preserve");
    reveal_strlit(".");
    lemma_plain_name_is_safe(".preserve"@);
    lemma_one_segment(".preserve"@);
    law_joined_path_stays_below(target, ".preserve"@);
    if is_bare_drive(target) {
        assert(outer.len() == 11);
    } else {
        assert(path_segments(outer).last() == ".preserve"@);
        lemma_not_a_bare_drive(outer);
    }
}

/// The folder of the prerequisites lies below the folder that the game is installed to, and is
/// never a bare drive letter.
proof fn lemma_folder_of_prerequisites(target: Seq<char>)
    ensures
        !is_bare_drive(folder_of_prerequisites(target)),
        !is_bare_drive(target) ==> stays_below(target, folder_of_prerequisites(target))
            && path_segments(folder_of_prerequisites(target)).len() > path_segments(target).len(),
{
    let outer = joined_path(target, ".preserve"@);
    let inner = joined_path(outer, "prerequisites"@);
    reveal_strlit("prerequisites");
    reveal_strlit(".");
    lemma_plain_name_is_safe("prerequisites"@);
    lemma_one_segment("prerequisites"@);
    lemma_own_folder(target);
    law_joined_path_stays_below(outer, "prerequisites"@);
    assert(path_segments(inner).last() == "prerequisites"@);
    lemma_not_a_bare_drive(inner);
    if !is_bare_drive(target) {
        lemma_stays_below_outer(target, outer, inner);
    }
}

/// Whatever a manifest says, nothing is downloaded to a place outside the folder that the game is
/// installed to, and neither is the file that holds it meanwhile, unless the manifest's path names
/// nothing. A bare drive letter is no folder to look below: there the manifest's path, which leads
/// to no parent folder, is appended to the letter, and prerequisites go to a folder of their own.
pub proof fn law_downloads_stay_in_the_folder(
    plan: DownloadPlan,
    target: Seq<char>,
    state: InstallState,
    event: InstallEvent,
    action: InstallAction,
)
    requires
        is_install_action(action, plan, target, state, event),
    ensures
        action matches InstallAction::DownloadFile(job) ==> {
            let path = state.file(plan).path@;
            &&& is_safe(path)
            &&& !is_bare_drive(target) ==> stays_below(target, job.destination@)
            &&& !is_bare_drive(target) && path_segments(path).len() > 0 ==> stays_below(
                target,
                partial_of(job.destination@),
            )
            &&& is_bare_drive(target) ==> job.destination@ == target + path
        },
        action matches InstallAction::FetchPrerequisite(job) ==> {
            let path = state.prerequisite(plan).file.path@;
            let folder = folder_of_prerequisites(target);
            &&& is_safe(path)
            &&& stays_below(folder, job.destination@)
            &&& path_segments(path).len() > 0 ==> stays_below(folder, partial_of(job.destination@))
            &&& !is_bare_drive(target) ==> stays_below(target, job.destination@) && stays_below(
                target,
                partial_of(job.destination@),
            )
        },
{
    match action {
        InstallAction::DownloadFile(job) => {
            let path = state.file(plan).path@;
            law_joined_path_stays_below(target, path);
            if !is_bare_drive(target) && path_segments(path).len() > 0 {
                law_partial_path_stays_below(target, job.destination@);
            }
        },
        InstallAction::FetchPrerequisite(job) => {
            let path = state.prerequisite(plan).file.path@;
            let folder = folder_of_prerequisites(target);
            lemma_folder_of_prerequisites(target);
            law_joined_path_stays_below(folder, path);
            if path_segments(path).len() > 0 {
                law_partial_path_stays_below(folder, job.destination@);
            }
            if !is_bare_drive(target) {
                lemma_stays_below_outer(target, folder, job.destination@);
                law_partial_path_stays_below(target, job.destination@);
            }
        },
        _ => {},
    }
}

/// A prerequisite that unpacks another installer is given a folder below the one that the game is
/// installed to, or below a folder of its own where that is a bare drive letter.
pub proof fn law_unpacking_stays_in_the_folder(target: Seq<char>, identifier: Seq<char>)
    requires
        is_identifier(identifier),
    ensures
        stays_below(joined_path(target, ".preserve"@), unpacking_folder(target, identifier)),
        !is_bare_drive(target) ==> stays_below(target, unpacking_folder(target, identifier)),
{
    let outer = joined_path(target, ".preserve"@);
    lemma_own_folder(target);
    lemma_identifier_is_a_name(identifier);
    law_joined_path_stays_below(outer, "prereq-"@ + identifier);
    if !is_bare_drive(target) {
        lemma_stays_below_outer(target, outer, unpacking_folder(target, identifier));
    }
}

/// How many downloads of prerequisites events tell to have ended well.
pub open spec fn fetched(events: Seq<InstallEvent>) -> nat
    decreases events.len(),
{
    if events.len() == 0 {
        0
    } else {
        fetched(events.drop_last()) + match events.last() {
            InstallEvent::PrerequisiteFetched { result: Ok(()), .. } => 1nat,
            _ => 0,
        }
    }
}

/// How many programs events tell to have ended with success.
pub open spec fn succeeded(events: Seq<InstallEvent>) -> nat
    decreases events.len(),
{
    if events.len() == 0 {
        0
    } else {
        succeeded(events.drop_last()) + match events.last() {
            InstallEvent::ProgramEnded(Ok(end)) => if end.success {
                1nat
            } else {
                0
            },
            _ => 0,
        }
    }
}

/// How many programs are run for the first prerequisites of a manifest, all together.
pub open spec fn programs_of(prerequisites: Seq<Prerequisite>, count: nat) -> nat
    decreases count,
{
    if count == 0 {
        0
    } else {
        programs_of(prerequisites, (count - 1) as nat) + call_count(prerequisites[count - 1])
    }
}

/// However an installation went: every prerequisite that counts as installed has been downloaded
/// and all its programs have ended with success, each after the one before it, and so it is with
/// the programs of the prerequisite that is due.
pub proof fn law_prerequisites_are_done_in_order(plan: DownloadPlan, events: Seq<InstallEvent>)
    ensures
        install_run(plan, events) matches Some(state) ==> {
            &&& succeeded(events) == programs_of(plan.manifest.prerequisites@, state.installed)
                + state.called
            &&& state.installed <= fetched(events) <= state.installed + 1
            &&& state.stage is Unpacking || state.stage is Running ==> fetched(events)
                == state.installed + 1
            &&& !(state.stage is Unpacking || state.stage is Running || state.stage is Finished)
                ==> fetched(events) == state.installed
        },
    decreases events.len(),
{
    if events.len() > 0 {
        law_prerequisites_are_done_in_order(plan, events.drop_last());
        law_installation_stays_sound(plan, events.drop_last());
    }
}

/// A program of a prerequisite is run only once the download of that prerequisite has been told to
/// have ended well, and the programs before it to have ended with success. No folder is made for it
/// to unpack to before that either. What it takes for a download to end well is the download's own
/// matter.
pub proof fn law_program_is_run_only_in_its_turn(
    plan: DownloadPlan,
    target: Seq<char>,
    events: Seq<InstallEvent>,
    event: InstallEvent,
    action: InstallAction,
)
    requires
        install_run(plan, events) matches Some(state) && state.awaits(plan, event)
            && is_install_action(action, plan, target, state, event),
    ensures
        install_run(plan, events.push(event)) matches Some(next) && {
            &&& action matches InstallAction::RunProgram(line) ==> {
                &&& next.stage is Running
                &&& line@ == next.calls(plan, target)[next.called as int]
                &&& fetched(events.push(event)) == next.installed + 1
                &&& succeeded(events.push(event)) == programs_of(
                    plan.manifest.prerequisites@,
                    next.installed,
                ) + next.called
            }
            &&& action is MakeFolder ==> fetched(events.push(event)) == next.installed + 1
        },
{
    assert(events.push(event).drop_last() =~= events);
    law_prerequisites_are_done_in_order(plan, events.push(event));
    law_installation_stays_sound(plan, events);
}

/// Only a prerequisite with the length and the digest that the manifest gives is run: where it is
/// told to be downloaded only if its download came to a good end, the file was there already with
/// them, or the partial file has them and has taken its place.
pub proof fn law_only_verified_prerequisites_are_run(
    plan: DownloadPlan,
    target: Seq<char>,
    state: InstallState,
    event: InstallEvent,
    action: InstallAction,
    existing: Option<Seq<u8>>,
    partial: Seq<u8>,
    steps: Seq<DownloadEvent>,
    last: DownloadEvent,
)
    requires
        is_install_action(action, plan, target, state, event),
        event matches InstallEvent::PrerequisiteFetched { result, .. } && (
        download_run(state.prerequisite(plan).file, existing, partial, steps) matches Some(course)
            && course.state.awaits(last) && tells_truth(
            state.prerequisite(plan).file,
            existing,
            course.partial,
            last,
        ) && (result is Ok ==> download_action(
            state.prerequisite(plan).file,
            course.state,
            last,
        ) is Done)),
    ensures
        action is RunProgram || action is MakeFolder ==> {
            let file = state.prerequisite(plan).file;
            ||| existing matches Some(bytes) && is_file(bytes, file)
            ||| download_run(file, existing, partial, steps) matches Some(course) && is_file(
                course.partial,
                file,
            ) && last matches DownloadEvent::Placed(Ok(()))
        },
{
    law_installed_file_is_verified(
        state.prerequisite(plan).file,
        existing,
        partial,
        steps,
        last,
    );
}

/// A prerequisite whose download failed, or one of whose programs failed or could not be run, ends
/// the installation with that failure. It is not installed, and nothing more is run for it.
pub proof fn law_failed_prerequisite_is_not_installed(
    plan: DownloadPlan,
    target: Seq<char>,
    state: InstallState,
    event: InstallEvent,
    action: InstallAction,
)
    requires
        is_install_action(action, plan, target, state, event),
        match event {
            InstallEvent::PrerequisiteFetched { result, .. } => result is Err,
            InstallEvent::FolderMade(result) => result is Err,
            InstallEvent::ProgramEnded(Ok(end)) => !end.success,
            InstallEvent::ProgramEnded(Err(_)) => true,
            _ => false,
        },
    ensures
        action is Fail,
        install_after(plan, state, event).stage is Finished,
        install_after(plan, state, event).installed == state.installed,
{
}

/// A game is reported as installed only once the download of every file of its manifest has been
/// told to have ended well, every prerequisite has been told to be downloaded and all its programs
/// to have ended with success, and the installation has been told to be recorded. What it takes for
/// the download of a file to end well is the download's own matter.
pub proof fn law_complete_means_complete(
    plan: DownloadPlan,
    events: Seq<InstallEvent>,
    event: InstallEvent,
)
    ensures
        install_run(plan, events) matches Some(state) ==> state.awaits(plan, event) && (
        install_report(plan, state, event) matches Some(report) && report.phase is Complete) ==> {
            &&& state.begun == plan.manifest.files@.len()
            &&& state.ended == plan.manifest.files@.len()
            &&& state.installed == plan.manifest.prerequisites@.len()
            &&& fetched(events) == plan.manifest.prerequisites@.len()
            &&& succeeded(events) == programs_of(
                plan.manifest.prerequisites@,
                plan.manifest.prerequisites@.len(),
            )
            &&& event matches InstallEvent::Recorded(Ok(_))
        },
{
    law_installation_stays_sound(plan, events);
    law_prerequisites_are_done_in_order(plan, events);
}

/// A file whose download fails, or that the manifest places outside the game's folder, ends the
/// installation, and so does a prerequisite that fails: nothing is awaited any more.
pub proof fn law_failure_ends_installation(
    plan: DownloadPlan,
    target: Seq<char>,
    state: InstallState,
    event: InstallEvent,
    action: InstallAction,
    later: InstallEvent,
)
    requires
        state.awaits(plan, event),
        state.sound(plan),
        is_install_action(action, plan, target, state, event),
        action is Fail,
    ensures
        install_after(plan, state, event).stage is Finished,
        !install_after(plan, state, event).awaits(plan, later),
{
}

/// By how much an event raises the count of the bytes that are there.
pub open spec fn growth(event: InstallEvent) -> nat {
    match event {
        InstallEvent::FileAdvanced { before, bytes } => if bytes > before {
            (bytes - before) as nat
        } else {
            0
        },
        _ => 0,
    }
}

/// The bytes that events have counted.
pub open spec fn count_of(events: Seq<InstallEvent>) -> nat
    decreases events.len(),
{
    if events.len() == 0 {
        0
    } else {
        count_of(events.drop_last()) + growth(events.last())
    }
}

/// The bytes that events have counted for one file, where each event belongs to a file.
pub open spec fn count_for(events: Seq<InstallEvent>, owners: Seq<nat>, file: nat) -> nat
    decreases events.len(),
{
    if events.len() == 0 {
        0
    } else {
        count_for(events.drop_last(), owners.drop_last(), file) + if owners.last() == file {
            growth(events.last())
        } else {
            0
        }
    }
}

/// The sizes of the first files of a manifest, all together.
pub open spec fn size_of(files: Seq<ManifestFile>, count: nat) -> nat
    decreases count,
{
    if count == 0 {
        0
    } else {
        size_of(files, (count - 1) as nat) + files[count - 1].size as nat
    }
}

/// The bytes that events have counted for the first files, all together.
spec fn count_for_first(events: Seq<InstallEvent>, owners: Seq<nat>, count: nat) -> nat
    decreases count,
{
    if count == 0 {
        0
    } else {
        count_for_first(events, owners, (count - 1) as nat) + count_for(
            events,
            owners,
            (count - 1) as nat,
        )
    }
}

proof fn lemma_count_for_first(events: Seq<InstallEvent>, owners: Seq<nat>, count: nat)
    requires
        events.len() > 0,
    ensures
        count_for_first(events, owners, count) == count_for_first(
            events.drop_last(),
            owners.drop_last(),
            count,
        ) + if owners.last() < count {
            growth(events.last())
        } else {
            0
        },
    decreases count,
{
    if count > 0 {
        lemma_count_for_first(events, owners, (count - 1) as nat);
    }
}

proof fn lemma_nothing_counted(events: Seq<InstallEvent>, owners: Seq<nat>, count: nat)
    requires
        events.len() == 0,
    ensures
        count_for_first(events, owners, count) == 0,
    decreases count,
{
    if count > 0 {
        lemma_nothing_counted(events, owners, (count - 1) as nat);
    }
}

proof fn lemma_counts_by_file(events: Seq<InstallEvent>, owners: Seq<nat>, count: nat)
    requires
        owners.len() == events.len(),
        forall|i: int|
            0 <= i < events.len() && growth(events[i]) > 0 ==> (#[trigger] owners[i]) < count,
    ensures
        count_of(events) == count_for_first(events, owners, count),
    decreases events.len(),
{
    if events.len() == 0 {
        lemma_nothing_counted(events, owners, count);
    } else {
        let fewer = events.drop_last();
        assert forall|i: int| 0 <= i < fewer.len() && growth(fewer[i]) > 0 implies (
        #[trigger] owners.drop_last()[i]) < count by {
            assert(owners[i] < count);
        }
        lemma_counts_by_file(fewer, owners.drop_last(), count);
        lemma_count_for_first(events, owners, count);
        assert(growth(events.last()) > 0 ==> owners[events.len() - 1] < count);
    }
}

/// The account holds what has been counted, as long as that does not overflow.
proof fn lemma_account_holds_count(plan: DownloadPlan, events: Seq<InstallEvent>)
    requires
        count_of(events) <= u64::MAX,
    ensures
        install_run(plan, events) matches Some(state) ==> state.transfer.completed == count_of(
            events,
        ) && state.transfer.total == plan.manifest.total_size_bytes,
    decreases events.len(),
{
    if events.len() > 0 {
        lemma_account_holds_count(plan, events.drop_last());
    }
}

/// Once the counts for every file have reached its size, the account holds the sizes of all files
/// together, and reports no more than the manifest gives as their total.
pub proof fn law_counted_bytes_are_the_sizes(
    plan: DownloadPlan,
    events: Seq<InstallEvent>,
    owners: Seq<nat>,
)
    requires
        owners.len() == events.len(),
        forall|i: int|
            0 <= i < events.len() && growth(events[i]) > 0 ==> (#[trigger] owners[i])
                < plan.manifest.files@.len(),
        forall|f: nat|
            f < plan.manifest.files@.len() ==> #[trigger] count_for(events, owners, f)
                == plan.manifest.files@[f as int].size,
        size_of(plan.manifest.files@, plan.manifest.files@.len()) <= u64::MAX,
    ensures
        install_run(plan, events) matches Some(state) ==> {
            let all = size_of(plan.manifest.files@, plan.manifest.files@.len());
            &&& state.transfer.completed == all
            &&& state.transfer.done() == if all <= plan.manifest.total_size_bytes {
                all
            } else {
                plan.manifest.total_size_bytes as nat
            }
        },
{
    let files = plan.manifest.files@;
    lemma_counts_by_file(events, owners, files.len());
    lemma_sizes_are_counts(events, owners, files, files.len());
    lemma_account_holds_count(plan, events);
}

proof fn lemma_sizes_are_counts(
    events: Seq<InstallEvent>,
    owners: Seq<nat>,
    files: Seq<ManifestFile>,
    count: nat,
)
    requires
        count <= files.len(),
        forall|f: nat|
            f < files.len() ==> #[trigger] count_for(events, owners, f) == files[f as int].size,
    ensures
        count_for_first(events, owners, count) == size_of(files, count),
    decreases count,
{
    if count > 0 {
        lemma_sizes_are_counts(events, owners, files, (count - 1) as nat);
    }
}

/// What an installation has reported after a sequence of events, its opening report first.
pub open spec fn reports_of(plan: DownloadPlan, events: Seq<InstallEvent>) -> Seq<ProgressState>
    decreases events.len(),
{
    if events.len() == 0 {
        seq![still(InstallPhase::Preparing, 0, "Preparing a verified download"@, 0, 0)]
    } else {
        let before = reports_of(plan, events.drop_last());
        match install_run(plan, events.drop_last()) {
            Some(state) => match install_report(plan, state, events.last()) {
                Some(report) => before.push(report),
                None => before,
            },
            None => before,
        }
    }
}

/// Whether a report of one phase can come right after a report of another.
pub open spec fn may_follow(phase: InstallPhase, next: InstallPhase) -> bool {
    match phase {
        InstallPhase::Preparing | InstallPhase::Downloading => next is Downloading
            || next is Verifying,
        InstallPhase::Verifying | InstallPhase::Prerequisites => next is Prerequisites
            || next is Complete,
        _ => false,
    }
}

/// Whether a percentage can belong to a phase.
pub open spec fn percent_fits(phase: InstallPhase, percent: u8) -> bool {
    match phase {
        InstallPhase::Preparing => percent == 0,
        InstallPhase::Downloading => percent <= DOWNLOAD_SHARE,
        InstallPhase::Verifying => percent == 95,
        InstallPhase::Prerequisites => percent == 97,
        InstallPhase::Complete => percent == 100,
        _ => false,
    }
}

/// The greatest percentage that can have been reported so far.
spec fn ceiling(state: InstallState) -> u8 {
    match state.stage {
        InstallStage::Downloading => percent_of(state.transfer.done(), state.transfer.total),
        InstallStage::Prerequisites
        | InstallStage::Fetching
        | InstallStage::Unpacking
        | InstallStage::Running => 97,
        _ => 100,
    }
}

/// Whether the last report is one that the stage allows.
spec fn last_report_fits(stage: InstallStage, last: InstallPhase) -> bool {
    match stage {
        InstallStage::Downloading => last is Preparing || last is Downloading,
        InstallStage::Prerequisites
        | InstallStage::Fetching
        | InstallStage::Unpacking
        | InstallStage::Running
        | InstallStage::Recording => last is Verifying || last is Prerequisites,
        InstallStage::Finished => true,
    }
}

/// The phases of the reports of an installation come in their order: it prepares, downloads,
/// verifies once, installs prerequisites, and is complete at the end. Each phase has its
/// percentages.
pub proof fn law_phases_come_in_order(plan: DownloadPlan, events: Seq<InstallEvent>)
    requires
        install_run(plan, events) is Some,
    ensures
        ({
            let reports = reports_of(plan, events);
            &&& reports.len() > 0
            &&& reports[0].phase is Preparing
            &&& forall|i: int|
                0 <= i < reports.len() - 1 ==> #[trigger] may_follow(
                    reports[i].phase,
                    reports[i + 1].phase,
                )
            &&& forall|i: int|
                0 <= i < reports.len() ==> percent_fits(
                    (#[trigger] reports[i]).phase,
                    reports[i].percent,
                )
        }),
{
    lemma_reports(plan, events);
}

proof fn lemma_reports(plan: DownloadPlan, events: Seq<InstallEvent>)
    requires
        install_run(plan, events) is Some,
    ensures
        ({
            let reports = reports_of(plan, events);
            &&& reports.len() > 0
            &&& reports[0].phase is Preparing
            &&& forall|i: int|
                0 <= i < reports.len() - 1 ==> #[trigger] may_follow(
                    reports[i].phase,
                    reports[i + 1].phase,
                )
            &&& forall|i: int|
                0 <= i < reports.len() ==> percent_fits(
                    (#[trigger] reports[i]).phase,
                    reports[i].percent,
                )
            &&& last_report_fits(install_run(plan, events)->Some_0.stage, reports.last().phase)
        }),
    decreases events.len(),
{
    if events.len() > 0 {
        lemma_reports(plan, events.drop_last());
        let before = reports_of(plan, events.drop_last());
        let after = reports_of(plan, events);
        assert(forall|i: int| 0 <= i < before.len() ==> after[i] == before[i]);
        assert forall|i: int| 0 <= i < after.len() - 1 implies #[trigger] may_follow(
            after[i].phase,
            after[i + 1].phase,
        ) by {
            if i < before.len() - 1 {
                assert(may_follow(before[i].phase, before[i + 1].phase));
            }
        }
    }
}

/// The percentage that an installation reports never falls, from its first report to its last, as
/// long as the count of its bytes does not overflow.
pub proof fn law_reports_move_forward(plan: DownloadPlan, events: Seq<InstallEvent>)
    requires
        install_run(plan, events) is Some,
        count_of(events) <= u64::MAX,
    ensures
        forall|i: int, j: int|
            0 <= i <= j < reports_of(plan, events).len() ==> (#[trigger] reports_of(
                plan,
                events,
            )[i]).percent <= (#[trigger] reports_of(plan, events)[j]).percent,
{
    lemma_reports_grow(plan, events);
}

proof fn lemma_reports_grow(plan: DownloadPlan, events: Seq<InstallEvent>)
    requires
        install_run(plan, events) is Some,
        count_of(events) <= u64::MAX,
    ensures
        ({
            let reports = reports_of(plan, events);
            let state = install_run(plan, events)->Some_0;
            &&& forall|i: int, j: int|
                0 <= i <= j < reports.len() ==> (#[trigger] reports[i]).percent <= (
                #[trigger] reports[j]).percent
            &&& forall|i: int|
                0 <= i < reports.len() ==> (#[trigger] reports[i]).percent <= ceiling(state)
        }),
    decreases events.len(),
{
    if events.len() > 0 {
        let fewer = events.drop_last();
        lemma_reports_grow(plan, fewer);
        lemma_account_holds_count(plan, fewer);
        lemma_account_holds_count(plan, events);
        let before = reports_of(plan, fewer);
        let after = reports_of(plan, events);
        let state = install_run(plan, fewer)->Some_0;
        let next = install_run(plan, events)->Some_0;
        law_percentage_never_falls(
            state.transfer.done(),
            next.transfer.done(),
            state.transfer.total,
        );
        assert(ceiling(state) <= ceiling(next) || next.stage is Finished);
        assert(forall|i: int| 0 <= i < before.len() ==> after[i] == before[i]);
        assert forall|i: int| 0 <= i < after.len() implies (#[trigger] after[i]).percent <= ceiling(
            next,
        ) by {
            if i < before.len() {
                assert(before[i].percent <= ceiling(state));
            }
        }
        assert forall|i: int, j: int| 0 <= i <= j < after.len() implies (
        #[trigger] after[i]).percent <= (#[trigger] after[j]).percent by {
            if j < before.len() {
                assert(before[i].percent <= before[j].percent);
            } else if i < before.len() {
                assert(before[i].percent <= ceiling(state));
            }
        }
    } else {
        assert(percent_of(0, plan.manifest.total_size_bytes) == 0) by {
            law_share_of_download(plan.manifest.total_size_bytes);
        }
    }
}

/// What an installation reports, and when: while files are downloaded, how far that is; once they
/// all are there, that they are verified; for each prerequisite, that it is installed; and at the
/// end that the game is ready. Nothing is reported of a step that was cancelled or failed, nor of any
/// other.
pub proof fn law_what_is_reported(
    plan: DownloadPlan,
    state: InstallState,
    now: u64,
    error: InstallError,
    event: InstallEvent,
)
    requires
        state.installed <= plan.manifest.prerequisites@.len(),
    ensures
        install_report(plan, state, InstallEvent::Tick { now, cancelled: false }) == Some(
            state.transfer.report(now),
        ),
        install_report(plan, state, InstallEvent::Tick { now, cancelled: true }) is None,
        install_report(plan, state, InstallEvent::FilesDone) == Some(
            ProgressState {
                phase: InstallPhase::Verifying,
                percent: 95,
                detail: "All files verified"@,
                bytes_done: state.transfer.done(),
                bytes_total: plan.manifest.total_size_bytes,
                bytes_per_second: 0,
                active_downloads: 0,
            },
        ),
        install_report(plan, state, InstallEvent::PrerequisiteDue { cancelled: true }) is None,
        install_report(plan, state, InstallEvent::PrerequisiteDue { cancelled: false }) == if state
            .installed < plan.manifest.prerequisites@.len() {
            Some(
                ProgressState {
                    phase: InstallPhase::Prerequisites,
                    percent: 97,
                    detail: "Installing "@ + state.prerequisite(plan).name@,
                    bytes_done: 0,
                    bytes_total: 0,
                    bytes_per_second: 0,
                    active_downloads: 0,
                },
            )
        } else {
            None
        },
        install_report(plan, state, InstallEvent::Recorded(Ok(()))) == Some(
            ProgressState {
                phase: InstallPhase::Complete,
                percent: 100,
                detail: plan.game.title@ + " is ready"@,
                bytes_done: plan.manifest.total_size_bytes,
                bytes_total: plan.manifest.total_size_bytes,
                bytes_per_second: 0,
                active_downloads: 0,
            },
        ),
        install_report(plan, state, InstallEvent::Recorded(Err(error))) is None,
        event is FileDue || event is FileAdvanced || event is FileEnded || event
            is PrerequisiteFetched || event is FolderMade || event is ProgramEnded
            ==> install_report(plan, state, event) is None,
{
}

/// Every report of an installation but the last is that it is prepared, downloaded or verified, or
/// that prerequisites are installed, and so is the last, unless it is that the installation is
/// complete. The percentage is 0 at first, up to 94 while files are downloaded, 95, 97 and at the end
/// 100.
pub proof fn law_reports_are_of_an_installation_under_way(
    plan: DownloadPlan,
    events: Seq<InstallEvent>,
    i: int,
)
    requires
        install_run(plan, events) is Some,
        0 <= i < reports_of(plan, events).len(),
    ensures
        ({
            let reports = reports_of(plan, events);
            let phase = reports[i].phase;
            let percent = reports[i].percent;
            &&& phase is Preparing || phase is Downloading || phase is Verifying || phase
                is Prerequisites || (phase is Complete && i == reports.len() - 1)
            &&& phase is Preparing <==> i == 0
            &&& phase is Preparing ==> percent == 0
            &&& phase is Downloading ==> percent <= 94
            &&& phase is Verifying ==> percent == 95
            &&& phase is Prerequisites ==> percent == 97
            &&& phase is Complete ==> percent == 100
        }),
{
    let reports = reports_of(plan, events);
    lemma_reports(plan, events);
    if i < reports.len() - 1 {
        assert(may_follow(reports[i].phase, reports[i + 1].phase));
    }
    if i > 0 {
        assert(may_follow(reports[i - 1].phase, reports[(i - 1) + 1].phase));
    }
}

/// When an installation waits for what: for another file while one is left and less than eight are
/// downloaded, for each stage the event that ends it, and for nothing once it is finished.
pub proof fn law_what_is_awaited(
    plan: DownloadPlan,
    state: InstallState,
    event: InstallEvent,
)
    ensures
        ({
            let stage = state.stage;
            match event {
                InstallEvent::FileDue { .. } => state.awaits(plan, event) <==> stage is Downloading
                    && state.begun < plan.manifest.files@.len() && state.transfer.active < 8,
                InstallEvent::FileAdvanced { .. } | InstallEvent::Tick { .. } => state.awaits(
                    plan,
                    event,
                ) <==> stage is Downloading,
                InstallEvent::FileEnded(_) => state.awaits(plan, event) <==> stage is Downloading
                    && state.transfer.active > 0,
                InstallEvent::FilesDone => state.awaits(plan, event) <==> stage is Downloading
                    && state.ended == plan.manifest.files@.len(),
                InstallEvent::PrerequisiteDue { .. } => state.awaits(plan, event) <==> stage
                    is Prerequisites,
                InstallEvent::PrerequisiteFetched { .. } => state.awaits(plan, event) <==> stage
                    is Fetching,
                InstallEvent::FolderMade(_) => state.awaits(plan, event) <==> stage is Unpacking,
                InstallEvent::ProgramEnded(_) => state.awaits(plan, event) <==> stage is Running,
                InstallEvent::Recorded(_) => state.awaits(plan, event) <==> stage is Recording,
            }
        }),
{
}

/// How an installation goes on while nothing fails and nobody cancels it: each file that is due is
/// begun and downloaded, those that end are counted, and once all are there the prerequisites are
/// downloaded, unpacked and run one after the other, and the installation is recorded.
pub proof fn law_installation_goes_on(
    plan: DownloadPlan,
    target: Seq<char>,
    state: InstallState,
    event: InstallEvent,
    action: InstallAction,
)
    requires
        state.sound(plan),
        state.awaits(plan, event),
        is_install_action(action, plan, target, state, event),
    ensures
        ({
            let after = install_after(plan, state, event);
            match event {
                InstallEvent::FileDue { cancelled: false } => {
                    let file = state.file(plan);
                    let formed = formed_address(
                        plan.file_base_url@,
                        object_key(plan.content_addressed, file),
                    );
                    let reachable = is_safe(file.path@) && (formed matches Ok(Some(_)));
                    &&& reachable <==> action is DownloadFile
                    &&& action matches InstallAction::DownloadFile(job) ==> job.destination@
                        == joined_path(target, file.path@) && formed == Ok::<
                        Option<Seq<char>>,
                        Seq<char>,
                    >(Some(job.url@))
                    &&& !reachable ==> action is Fail && after.stage is Finished
                    &&& reachable ==> after.stage is Downloading
                    &&& after.begun == state.begun + 1
                    &&& after.transfer == state.transfer.begun(file.path@)
                    &&& after.ended == state.ended && after.installed == state.installed
                },
                InstallEvent::FileAdvanced { before, bytes } => {
                    &&& action is Wait
                    &&& after == (InstallState {
                        transfer: state.transfer.advanced(before, bytes),
                        ..state
                    })
                },
                InstallEvent::FileEnded(Ok(())) => {
                    &&& action is Wait
                    &&& after == (InstallState {
                        transfer: state.transfer.ended(),
                        ended: state.ended + 1,
                        ..state
                    })
                },
                InstallEvent::Tick { now, cancelled: false } => {
                    &&& action is Wait
                    &&& after.stage is Downloading
                    &&& after.transfer == (TransferState {
                        samples: state.transfer.sampled(now),
                        ..state.transfer
                    })
                    &&& after == (InstallState { transfer: after.transfer, ..state })
                },
                InstallEvent::FilesDone => {
                    &&& action matches InstallAction::NextPrerequisite { clear } && clear is None
                    &&& after == (InstallState { stage: InstallStage::Prerequisites, ..state })
                },
                InstallEvent::PrerequisiteDue { cancelled } => {
                    &&& state.installed == plan.manifest.prerequisites@.len() ==> action is Record
                        && after == (InstallState { stage: InstallStage::Recording, ..state })
                    &&& state.installed < plan.manifest.prerequisites@.len() && !cancelled ==> {
                        let file = state.prerequisite(plan).file;
                        let formed = formed_address(
                            plan.prerequisite_base_url@,
                            object_key(plan.content_addressed, file),
                        );
                        let reachable = is_safe(file.path@) && (formed matches Ok(Some(_)));
                        &&& reachable <==> action is FetchPrerequisite
                        &&& action matches InstallAction::FetchPrerequisite(job)
                            ==> job.destination@ == joined_path(
                            folder_of_prerequisites(target),
                            file.path@,
                        ) && formed == Ok::<Option<Seq<char>>, Seq<char>>(Some(job.url@))
                        &&& !reachable ==> action is Fail && after.stage is Finished
                        &&& reachable ==> after == (InstallState {
                            stage: InstallStage::Fetching,
                            ..state
                        })
                    }
                },
                InstallEvent::PrerequisiteFetched { result: Ok(()), identifier } => {
                    let unpacks = state.prerequisite(plan).extracted is Some;
                    &&& unpacks ==> (action matches InstallAction::MakeFolder(folder) && folder@
                        == unpacking_folder(target, identifier@)) && after.stage is Unpacking
                    &&& !unpacks ==> action is RunProgram && after.stage is Running
                    &&& after.identifier == identifier@
                    &&& after.installed == state.installed && after.called == 0
                },
                InstallEvent::FolderMade(Ok(())) => {
                    &&& action is RunProgram
                    &&& after == (InstallState { stage: InstallStage::Running, ..state })
                },
                InstallEvent::ProgramEnded(Ok(end)) => {
                    let unpacks = state.prerequisite(plan).extracted is Some;
                    &&& end.success && unpacks && state.called == 0 ==> action is RunProgram
                        && after == (InstallState { called: 1, ..state })
                    &&& end.success && (!unpacks || state.called == 1) ==> {
                        &&& action matches InstallAction::NextPrerequisite { clear } && match clear {
                            Some(folder) => unpacks && folder@ == unpacking_folder(
                                target,
                                state.identifier,
                            ),
                            None => !unpacks,
                        }
                        &&& after.stage is Prerequisites
                        &&& after.installed == state.installed + 1
                        &&& after.called == 0
                    }
                },
                InstallEvent::Recorded(Ok(())) => action is Done && after.stage is Finished,
                _ => true,
            }
        }),
{
}

/// What ends an installation before it is complete, and with which failure: a file or a prerequisite
/// that fails fails the installation with its failure, so does what cannot be recorded, and an
/// installation that was cancelled fails as cancelled. A program that ends without success fails with
/// the prerequisite's name and the program's status. A file that has come to its end, whichever, is
/// one less under way.
pub proof fn law_what_ends_an_installation(
    plan: DownloadPlan,
    target: Seq<char>,
    state: InstallState,
    event: InstallEvent,
    action: InstallAction,
)
    requires
        is_install_action(action, plan, target, state, event),
    ensures
        ({
            let stage = install_after(plan, state, event).stage;
            match event {
                InstallEvent::FileDue { cancelled: true } | InstallEvent::Tick {
                    cancelled: true,
                    ..
                } => action == InstallAction::Fail(InstallError::Cancelled) && stage is Finished,
                InstallEvent::PrerequisiteDue { cancelled: true } => state.installed
                    != plan.manifest.prerequisites@.len() ==> action == InstallAction::Fail(
                    InstallError::Cancelled,
                ) && stage is Finished,
                InstallEvent::FileEnded(Err(error))
                | InstallEvent::PrerequisiteFetched { result: Err(error), .. }
                | InstallEvent::FolderMade(Err(error))
                | InstallEvent::ProgramEnded(Err(error))
                | InstallEvent::Recorded(Err(error)) => action == InstallAction::Fail(error) && stage
                    is Finished,
                InstallEvent::ProgramEnded(Ok(end)) => !end.success ==> (action
                    matches InstallAction::Fail(InstallError::Prerequisite(name, status)) && name@
                    == state.prerequisite(plan).name@ && status == end.status) && stage is Finished,
                _ => true,
            }
        }),
        event is FileEnded && state.transfer.active > 0 ==> install_after(plan, state, event).transfer
            == (TransferState { active: (state.transfer.active - 1) as usize, ..state.transfer }),
{
}

/// A file that is downloaded comes from its own address and goes to its own place; one that cannot
/// be is refused for its path, or else for its address.
pub proof fn law_where_a_file_comes_from_and_goes_to(
    r: Result<FileJob, InstallError>,
    root: Seq<char>,
    origin: Seq<char>,
    content_addressed: bool,
    file: ManifestFile,
)
    requires
        is_job(r, root, origin, content_addressed, file),
    ensures
        ({
            let formed = formed_address(origin, object_key(content_addressed, file));
            &&& r is Ok <==> is_safe(file.path@) && (formed matches Ok(Some(_)))
            &&& r is Ok <==> has_job(origin, content_addressed, file)
            &&& r matches Ok(job) ==> job.destination@ == joined_path(root, file.path@) && formed
                == Ok::<Option<Seq<char>>, Seq<char>>(Some(job.url@))
            &&& r matches Err(error) ==> {
                &&& !is_safe(file.path@) ==> error is UnsafePath
                &&& is_safe(file.path@) && (formed matches Ok(None)) ==> error is InvalidOrigin
                &&& is_safe(file.path@) && (formed matches Err(words)) ==> error is InvalidUrl
            }
        }),
{
}

/// An installation begins with nothing there.
pub proof fn law_installation_begins_with_nothing(plan: DownloadPlan)
    ensures
        ({
            let state = fresh_install(plan);
            &&& state.stage is Downloading
            &&& state.begun == 0 && state.ended == 0 && state.installed == 0 && state.called == 0
            &&& state.transfer.total == plan.manifest.total_size_bytes
            &&& state.transfer.completed == 0 && state.transfer.active == 0
            &&& state.transfer.current.len() == 0 && state.transfer.samples.len() == 0
        }),
{
}

/// Files and prerequisites are taken one after the other, in the order of the manifest, and what is
/// run for a prerequisite is what was downloaded for it.
pub proof fn law_what_is_due(plan: DownloadPlan, target: Seq<char>, state: InstallState)
    ensures
        state.file(plan) == plan.manifest.files@[state.begun as int],
        state.prerequisite(plan) == plan.manifest.prerequisites@[state.installed as int],
        ({
            let prerequisite = plan.manifest.prerequisites@[state.installed as int];
            state.calls(plan, target) == prerequisite_calls(
                prerequisite,
                joined_path(folder_of_prerequisites(target), prerequisite.file.path@),
                unpacking_folder(target, state.identifier),
            )
        }),
        PARALLEL_DOWNLOADS == 8,
        REPORT_INTERVAL == 160,
{
}

/// A plan can be carried out if none of its addresses, paths and digests is longer than 16 million
/// characters, the keys than eight times that.
pub proof fn law_plans_can_be_large(plan: DownloadPlan, i: int, j: int)
    requires
        0 <= i < plan.manifest.files@.len(),
        0 <= j < plan.manifest.prerequisites@.len(),
    ensures
        addresses_fit(plan) ==> plan.file_base_url@.len() <= 0x100_0000
            && plan.prerequisite_base_url@.len() <= 0x100_0000,
        addresses_fit(plan) ==> key_fits(plan.manifest.files@[i]) && key_fits(
            plan.manifest.prerequisites@[j].file,
        ),
        plan.file_base_url@.len() <= 0x100_0000 && plan.prerequisite_base_url@.len() <= 0x100_0000
            && (forall|n: int|
            0 <= n < plan.manifest.files@.len() ==> key_fits(#[trigger] plan.manifest.files@[n]))
            && (forall|n: int|
            0 <= n < plan.manifest.prerequisites@.len() ==> key_fits(
                (#[trigger] plan.manifest.prerequisites@[n]).file,
            )) ==> addresses_fit(plan),
{
}

} // verus!
