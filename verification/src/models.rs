//! What the catalog service and the installer exchange.

use vstd::prelude::*;

verus! {

/// A game of the catalog.
#[derive(Debug, PartialEq)]
pub struct Game {
    pub id: String,
    pub title: String,
    pub short_title: String,
    pub year: String,
    pub edition: String,
    pub size: String,
    pub status: String,
    pub version: Option<String>,
    pub accent: String,
    pub cover_url: Option<String>,
}

/// The reply to a catalog request.
#[derive(Debug)]
pub struct GamesResponse {
    pub games: Vec<Game>,
}

/// A file of a game, as its manifest describes it.
#[derive(Debug)]
pub struct ManifestFile {
    pub path: String,
    pub sha256: String,
    pub size: u64,
}

/// An installer that a prerequisite's own installer unpacks.
#[derive(Debug)]
pub struct ExtractedPrerequisite {
    pub exe: String,
    pub args: String,
}

/// A program that has to be run before a game can be.
#[derive(Debug)]
pub struct Prerequisite {
    pub name: String,
    pub file: ManifestFile,
    pub args: String,
    pub extracted: Option<ExtractedPrerequisite>,
}

/// What a game consists of.
#[derive(Debug)]
pub struct GameManifest {
    pub version: String,
    pub entry_exe: String,
    pub total_size_bytes: u64,
    pub files: Vec<ManifestFile>,
    pub prerequisites: Vec<Prerequisite>,
}

/// The reply to a device's request for a session.
#[derive(Debug)]
pub struct SessionResponse {
    pub access_token: String,
}

/// Everything that an installation needs to know about a game.
#[derive(Debug)]
pub struct DownloadPlan {
    pub game: Game,
    pub manifest: GameManifest,
    pub file_base_url: String,
    pub prerequisite_base_url: String,
    pub content_addressed: bool,
}

/// What a device sends to obtain a session.
#[derive(Debug)]
pub struct DeviceExchange<'a> {
    pub hwid: &'a str,
    pub nonce: &'a str,
    pub proof: &'a str,
}

/// How far an installation has come.
#[derive(Clone, Copy, Debug, PartialEq, Eq, Structural)]
pub enum InstallPhase {
    Idle,
    Preparing,
    Downloading,
    Verifying,
    Prerequisites,
    Complete,
    Cancelled,
    Failed,
}

/// A report on an installation.
#[derive(Debug, PartialEq)]
pub struct InstallProgress {
    pub phase: InstallPhase,
    pub percent: u8,
    pub detail: String,
    pub bytes_done: u64,
    pub bytes_total: u64,
    pub bytes_per_second: u64,
    pub active_downloads: usize,
}

/// What a report says.
pub struct ProgressState {
    pub phase: InstallPhase,
    pub percent: u8,
    pub detail: Seq<char>,
    pub bytes_done: u64,
    pub bytes_total: u64,
    pub bytes_per_second: u64,
    pub active_downloads: usize,
}

impl View for InstallProgress {
    type V = ProgressState;

    open spec fn view(&self) -> ProgressState {
        ProgressState {
            phase: self.phase,
            percent: self.percent,
            detail: self.detail@,
            bytes_done: self.bytes_done,
            bytes_total: self.bytes_total,
            bytes_per_second: self.bytes_per_second,
            active_downloads: self.active_downloads,
        }
    }
}

/// A report with nothing moving.
pub open spec fn still(
    phase: InstallPhase,
    percent: u8,
    detail: Seq<char>,
    bytes_done: u64,
    bytes_total: u64,
) -> ProgressState {
    ProgressState {
        phase,
        percent,
        detail,
        bytes_done,
        bytes_total,
        bytes_per_second: 0,
        active_downloads: 0,
    }
}

impl InstallPhase {
    /// Whether an installation is under way in this phase.
    pub open spec fn running(self) -> bool {
        self is Preparing || self is Downloading || self is Verifying || self is Prerequisites
    }

    /// Whether an installation is under way in this phase.
    pub fn is_running(self) -> (r: bool)
        ensures
            r == self.running(),
    {
        match self {
            InstallPhase::Preparing
            | InstallPhase::Downloading
            | InstallPhase::Verifying
            | InstallPhase::Prerequisites => true,
            _ => false,
        }
    }

    /// Whether an installation has come to an end in this phase.
    pub open spec fn ended(self) -> bool {
        self is Complete || self is Cancelled || self is Failed
    }

    /// Whether an installation has come to an end in this phase.
    pub fn is_ended(self) -> (r: bool)
        ensures
            r == self.ended(),
    {
        match self {
            InstallPhase::Complete | InstallPhase::Cancelled | InstallPhase::Failed => true,
            _ => false,
        }
    }
}

/// A copy of an optional string.
fn copy_of(text: &Option<String>) -> (r: Option<String>)
    ensures
        r == *text,
{
    match text {
        Some(text) => Some(text.clone()),
        None => None,
    }
}

impl Clone for Game {
    fn clone(&self) -> (r: Self)
        ensures
            r == *self,
    {
        Game {
            id: self.id.clone(),
            title: self.title.clone(),
            short_title: self.short_title.clone(),
            year: self.year.clone(),
            edition: self.edition.clone(),
            size: self.size.clone(),
            status: self.status.clone(),
            version: copy_of(&self.version),
            accent: self.accent.clone(),
            cover_url: copy_of(&self.cover_url),
        }
    }
}

impl Clone for ManifestFile {
    fn clone(&self) -> (r: Self)
        ensures
            r == *self,
    {
        ManifestFile { path: self.path.clone(), sha256: self.sha256.clone(), size: self.size }
    }
}

impl Clone for ExtractedPrerequisite {
    fn clone(&self) -> (r: Self)
        ensures
            r == *self,
    {
        ExtractedPrerequisite { exe: self.exe.clone(), args: self.args.clone() }
    }
}

impl Clone for Prerequisite {
    fn clone(&self) -> (r: Self)
        ensures
            r == *self,
    {
        Prerequisite {
            name: self.name.clone(),
            file: self.file.clone(),
            args: self.args.clone(),
            extracted: match &self.extracted {
                Some(extracted) => Some(extracted.clone()),
                None => None,
            },
        }
    }
}

impl Clone for GameManifest {
    fn clone(&self) -> (r: Self)
        ensures
            r.version == self.version,
            r.entry_exe == self.entry_exe,
            r.total_size_bytes == self.total_size_bytes,
            r.files@ == self.files@,
            r.prerequisites@ == self.prerequisites@,
    {
        let mut files: Vec<ManifestFile> = Vec::new();
        let mut i: usize = 0;
        while i < self.files.len()
            invariant
                i <= self.files@.len(),
                files@ == self.files@.take(i as int),
            decreases self.files@.len() - i,
        {
            files.push(self.files[i].clone());
            i = i + 1;
            assert(files@ =~= self.files@.take(i as int));
        }
        let mut prerequisites: Vec<Prerequisite> = Vec::new();
        let mut j: usize = 0;
        while j < self.prerequisites.len()
            invariant
                j <= self.prerequisites@.len(),
                prerequisites@ == self.prerequisites@.take(j as int),
            decreases self.prerequisites@.len() - j,
        {
            prerequisites.push(self.prerequisites[j].clone());
            j = j + 1;
            assert(prerequisites@ =~= self.prerequisites@.take(j as int));
        }
        assert(self.files@.take(self.files@.len() as int) =~= self.files@);
        assert(self.prerequisites@.take(self.prerequisites@.len() as int) =~= self.prerequisites@);
        GameManifest {
            version: self.version.clone(),
            entry_exe: self.entry_exe.clone(),
            total_size_bytes: self.total_size_bytes,
            files,
            prerequisites,
        }
    }
}

impl Clone for InstallProgress {
    fn clone(&self) -> (r: Self)
        ensures
            r == *self,
    {
        InstallProgress {
            phase: self.phase,
            percent: self.percent,
            detail: self.detail.clone(),
            bytes_done: self.bytes_done,
            bytes_total: self.bytes_total,
            bytes_per_second: self.bytes_per_second,
            active_downloads: self.active_downloads,
        }
    }
}

impl Default for InstallProgress {
    fn default() -> (r: Self)
        ensures
            r@ == still(InstallPhase::Idle, 0, Seq::empty(), 0, 0),
    {
        InstallProgress {
            phase: InstallPhase::Idle,
            percent: 0,
            detail: String::new(),
            bytes_done: 0,
            bytes_total: 0,
            bytes_per_second: 0,
            active_downloads: 0,
        }
    }
}

/// In every phase either nothing has been begun, or an installation is under way, or it has come to
/// an end: it is complete, was told to stop, or failed.
pub proof fn law_phase_is_idle_under_way_or_ended(phase: InstallPhase)
    ensures
        phase.running() <==> !(phase is Idle) && !phase.ended(),
        phase.ended() <==> phase is Complete || phase is Cancelled || phase is Failed,
{
}

/// A report is seen as it is, in all that it says.
pub proof fn law_reports_are_seen_whole(progress: InstallProgress)
    ensures
        progress@.phase == progress.phase,
        progress@.percent == progress.percent,
        progress@.detail == progress.detail@,
        progress@.bytes_done == progress.bytes_done,
        progress@.bytes_total == progress.bytes_total,
        progress@.bytes_per_second == progress.bytes_per_second,
        progress@.active_downloads == progress.active_downloads,
{
}

/// A report of something that does not move gives the phase, the percentage, the words and the bytes,
/// and no speed and no downloads.
pub proof fn law_still_report_has_no_speed(
    phase: InstallPhase,
    percent: u8,
    detail: Seq<char>,
    done: u64,
    total: u64,
)
    ensures
        ({
            let report = still(phase, percent, detail, done, total);
            &&& report.phase == phase
            &&& report.percent == percent
            &&& report.detail == detail
            &&& report.bytes_done == done
            &&& report.bytes_total == total
            &&& report.bytes_per_second == 0
            &&& report.active_downloads == 0
        }),
{
}

} // verus!
