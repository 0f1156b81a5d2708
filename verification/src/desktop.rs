//! The state of the desktop application: the catalog, the downloads, and which windows are open.
//!
//! Whatever takes time happens elsewhere and comes back as an event. What has to be begun
//! elsewhere is given back to the caller.

use crate::api::{chosen_address, service_address};
use crate::cover::{decode_cover, CoverImage};
use crate::models::{still, Game, InstallPhase, InstallProgress, ProgressState};
use crate::path::{
    is_bare_drive, is_safe, join_path, joined_path, law_joined_path_stays_below,
    lemma_not_a_bare_drive, lemma_one_segment, lemma_plain_name_is_safe, path_segments,
};
use crate::table::Table;
use crate::text::{joined, owned_text, same_text, text_view};
use vstd::prelude::*;

verus! {

broadcast use vstd::string::group_string_axioms;

/// A download of a game, under way or not.
#[derive(Debug)]
pub struct DownloadTask {
    /// The folder that the game is installed to.
    pub target: String,
    pub progress: InstallProgress,
    /// Whether the installation is still there to be told to stop.
    pub cancel: bool,
}

/// A download of a game, under way or not.
pub struct TaskState {
    pub target: Seq<char>,
    pub progress: ProgressState,
    pub cancel: bool,
}

impl View for DownloadTask {
    type V = TaskState;

    open spec fn view(&self) -> TaskState {
        TaskState { target: self.target@, progress: self.progress@, cancel: self.cancel }
    }
}

/// What happened elsewhere.
pub enum Event {
    /// The catalog came, with the user's own folder, if there is one; or why it did not.
    Catalog(Result<(Vec<Game>, Option<String>), String>),
    /// The cover picture of a game came: the bytes of the file.
    Cover(String, Vec<u8>),
    /// An installation reports.
    Progress(String, InstallProgress),
    /// An installation has stopped: why, and whether it was told to.
    Stopped(String, String, bool),
    /// An installation has come to its end.
    Finished(String),
    /// The folder of a game has been cleared, or why it could not be.
    CleanupFinished(String, Result<(), String>),
}

/// A cover picture to be fetched.
#[derive(Debug)]
pub struct CoverRequest {
    pub game_id: String,
    pub url: String,
}

/// What to begin after an event.
pub enum Effect {
    Nothing,
    /// Request the catalog from the service at an address.
    LoadCatalog(String),
    /// Fetch cover pictures.
    FetchCovers(Vec<CoverRequest>),
    /// Show the cover picture of a game, under a name of its own.
    ShowCover { game_id: String, name: String, image: CoverImage },
    /// Remove the folder of a game.
    ClearFolder { game_id: String, target: String },
}

/// An installation to be begun.
#[derive(Debug)]
pub struct InstallRequest {
    /// The address of the catalog service.
    pub api_url: String,
    pub game_id: String,
    pub target: String,
}

/// What to do when a download is cancelled.
#[derive(Debug)]
pub enum CancelAction {
    /// There is no such download.
    Nothing,
    /// Tell the installation to stop. Its folder is cleared once it has.
    Stop,
    /// Remove the folder.
    ClearFolder(String),
}

/// The state of the application.
pub struct AppState {
    /// The address of the catalog service.
    pub api_url: Seq<char>,
    pub games: Seq<Game>,
    pub selected: Option<usize>,
    pub dialog_open: bool,
    pub manager_open: bool,
    pub cancel_confirmation: Option<Seq<char>>,
    /// For each game the folder that it is to be installed to.
    pub install_dirs: Map<Seq<char>, Seq<char>>,
    pub downloads: Map<Seq<char>, TaskState>,
    /// The folders to be cleared, once the installations in them have stopped.
    pub pending_cleanup: Map<Seq<char>, Seq<char>>,
    pub message: Seq<char>,
}

/// Whether a game can be installed.
pub open spec fn is_available(game: Game) -> bool {
    game.status@ == "available"@
}

/// The first game that can be installed.
pub open spec fn first_available(games: Seq<Game>) -> Option<usize>
    decreases games.len(),
{
    if games.len() == 0 {
        None
    } else {
        match first_available(games.drop_last()) {
            Some(index) => Some(index),
            None => if is_available(games.last()) {
                Some((games.len() - 1) as usize)
            } else {
                None
            },
        }
    }
}

/// The game to select of a new catalog: the first that can be installed, or else the first.
pub open spec fn selection(games: Seq<Game>) -> Option<usize> {
    match first_available(games) {
        Some(index) => Some(index),
        None => if games.len() > 0 {
            Some(0)
        } else {
            None
        },
    }
}

/// The folder that a game is installed to unless the user chooses another: below the user's own
/// folder, if there is one.
pub open spec fn default_folder(home: Option<Seq<char>>, game_id: Seq<char>) -> Seq<char> {
    let own = match home {
        Some(home) => joined_path(home, ".preserve"@),
        None => ".preserve"@,
    };
    joined_path(joined_path(own, "games"@), game_id)
}

/// The folder that a game is installed to unless the user chooses another.
pub fn default_install_dir(home: Option<&str>, game_id: &str) -> (r: String)
    ensures
        r@ == default_folder(text_view(home), game_id@),
{
    let own = match home {
        Some(home) => join_path(home, ".preserve"),
        None => ".preserve".to_owned(),
    };
    join_path(join_path(own.as_str(), "games").as_str(), game_id)
}

/// The folders for games, once each game of a catalog has one: its own, if it had one already.
pub open spec fn folders_with(
    folders: Map<Seq<char>, Seq<char>>,
    games: Seq<Game>,
    home: Option<Seq<char>>,
) -> Map<Seq<char>, Seq<char>>
    decreases games.len(),
{
    if games.len() == 0 {
        folders
    } else {
        let before = folders_with(folders, games.drop_last(), home);
        if before.contains_key(games.last().id@) {
            before
        } else {
            before.insert(games.last().id@, default_folder(home, games.last().id@))
        }
    }
}

/// The cover pictures of a catalog, each with its game and its address.
pub open spec fn covers_of(games: Seq<Game>) -> Seq<(Seq<char>, Seq<char>)>
    decreases games.len(),
{
    if games.len() == 0 {
        Seq::empty()
    } else {
        let before = covers_of(games.drop_last());
        match games.last().cover_url {
            Some(url) => before.push((games.last().id@, url@)),
            None => before,
        }
    }
}

/// The game and the address of each request.
pub open spec fn requested(list: Seq<CoverRequest>) -> Seq<(Seq<char>, Seq<char>)> {
    list.map_values(|request: CoverRequest| (request.game_id@, request.url@))
}

/// The first game of that name.
pub open spec fn game_of(games: Seq<Game>, id: Seq<char>) -> Option<Game>
    decreases games.len(),
{
    if games.len() == 0 {
        None
    } else {
        match game_of(games.drop_last(), id) {
            Some(game) => Some(game),
            None => if games.last().id@ == id {
                Some(games.last())
            } else {
                None
            },
        }
    }
}

/// A download that has just been begun.
pub open spec fn fresh_task(target: Seq<char>) -> TaskState {
    TaskState {
        target,
        progress: still(InstallPhase::Preparing, 0, "Preparing"@, 0, 0),
        cancel: true,
    }
}

impl TaskState {
    /// The download after a report.
    pub open spec fn reported(self, progress: ProgressState) -> TaskState {
        TaskState { progress, cancel: self.cancel && !progress.phase.ended(), ..self }
    }

    /// The download once its installation has stopped.
    pub open spec fn stopped(self, error: Seq<char>, cancelled: bool) -> TaskState {
        TaskState {
            cancel: false,
            progress: ProgressState {
                phase: if cancelled {
                    InstallPhase::Cancelled
                } else {
                    InstallPhase::Failed
                },
                detail: if cancelled {
                    "Download paused. Resume whenever you're ready."@
                } else {
                    error
                },
                bytes_per_second: 0,
                active_downloads: 0,
                ..self.progress
            },
            ..self
        }
    }
}

impl AppState {
    /// Whether an installation of the game is under way.
    pub open spec fn running(self, id: Seq<char>) -> bool {
        self.downloads.contains_key(id) && self.downloads[id].progress.phase.running()
    }

    /// Whether an installation of the game can be begun: it is in the catalog, has a folder, and
    /// is not being installed.
    pub open spec fn can_begin(self, id: Seq<char>) -> bool {
        game_of(self.games, id) is Some && self.install_dirs.contains_key(id) && !self.running(id)
    }

    /// The state once an installation has been begun, if it can be.
    pub open spec fn begun(self, id: Seq<char>) -> AppState {
        if self.can_begin(id) {
            AppState {
                downloads: self.downloads.insert(id, fresh_task(self.install_dirs[id])),
                ..self
            }
        } else {
            self
        }
    }

    /// The state once a download has been cancelled. If its installation has to stop first, its
    /// folder is to be cleared later.
    pub open spec fn cancelled(self, id: Seq<char>) -> AppState {
        if self.downloads.contains_key(id) {
            let task = self.downloads[id];
            AppState {
                downloads: self.downloads.remove(id),
                pending_cleanup: if task.cancel {
                    self.pending_cleanup.insert(id, task.target)
                } else {
                    self.pending_cleanup
                },
                ..self
            }
        } else {
            self
        }
    }

    /// The state once an event has been received.
    pub open spec fn after(self, event: Event) -> AppState {
        match event {
            Event::Catalog(Ok((games, home))) => AppState {
                games: games@,
                selected: selection(games@),
                install_dirs: folders_with(self.install_dirs, games@, owned_text(home)),
                message: Seq::empty(),
                ..self
            },
            Event::Catalog(Err(error)) => AppState { message: error@, ..self },
            Event::Cover(_, _) => self,
            Event::Progress(id, progress) => if self.downloads.contains_key(id@) {
                AppState {
                    downloads: self.downloads.insert(
                        id@,
                        self.downloads[id@].reported(progress@),
                    ),
                    ..self
                }
            } else {
                self
            },
            Event::Stopped(id, error, cancelled) => if self.pending_cleanup.contains_key(id@) {
                AppState { pending_cleanup: self.pending_cleanup.remove(id@), ..self }
            } else if self.downloads.contains_key(id@) {
                AppState {
                    downloads: self.downloads.insert(
                        id@,
                        self.downloads[id@].stopped(error@, cancelled),
                    ),
                    ..self
                }
            } else {
                self
            },
            Event::Finished(id) => AppState {
                pending_cleanup: self.pending_cleanup.remove(id@),
                ..self
            },
            Event::CleanupFinished(id, Ok(())) => self,
            Event::CleanupFinished(id, Err(error)) => AppState {
                message: "Could not clear "@ + id@ + "'s download directory: "@ + error@,
                ..self
            },
        }
    }

    /// Whether `effect` is what to begin after an event.
    pub open spec fn is_effect(self, effect: Effect, event: Event) -> bool {
        match event {
            Event::Catalog(Ok((games, _))) => effect matches Effect::FetchCovers(list) && requested(
                list@,
            ) == covers_of(games@),
            Event::Cover(id, _) => effect is Nothing || (effect matches Effect::ShowCover {
                game_id,
                name,
                image,
            } && game_id@ == id@ && name@ == "cover-"@ + id@ && image.wf()),
            Event::Stopped(id, _, _) | Event::Finished(id) => if self.pending_cleanup.contains_key(
                id@,
            ) {
                effect matches Effect::ClearFolder { game_id, target } && game_id@ == id@ && target@
                    == self.pending_cleanup[id@]
            } else {
                effect is Nothing
            },
            _ => effect is Nothing,
        }
    }
}

/// The state of the application.
pub struct PreserveApp {
    api_url: String,
    games: Vec<Game>,
    selected: Option<usize>,
    dialog_open: bool,
    manager_open: bool,
    cancel_confirmation: Option<String>,
    install_dirs: Table<String>,
    downloads: Table<DownloadTask>,
    pending_cleanup: Table<String>,
    message: String,
}

impl View for PreserveApp {
    type V = AppState;

    closed spec fn view(&self) -> AppState {
        AppState {
            api_url: self.api_url@,
            games: self.games@,
            selected: self.selected,
            dialog_open: self.dialog_open,
            manager_open: self.manager_open,
            cancel_confirmation: match self.cancel_confirmation {
                Some(id) => Some(id@),
                None => None,
            },
            install_dirs: self.install_dirs@,
            downloads: self.downloads@,
            pending_cleanup: self.pending_cleanup@,
            message: self.message@,
        }
    }
}

/// What to do with a cover picture of a game, once its bytes are known to be one or not.
pub fn show_cover(game_id: String, decoded: Option<CoverImage>) -> (effect: Effect)
    ensures
        match decoded {
            Some(picture) => effect matches Effect::ShowCover { game_id: id, name, image } && id
                == game_id && name@ == "cover-"@ + game_id@ && image == picture,
            None => effect is Nothing,
        },
{
    match decoded {
        Some(image) => {
            let name = joined("cover-", game_id.as_str());
            Effect::ShowCover { game_id, name, image }
        },
        None => Effect::Nothing,
    }
}

/// Whether the words of an error are those of an installation that was told to stop.
fn is_cancellation(error: &str) -> (r: bool)
    ensures
        r == (error@ == "Installation cancelled"@),
{
    same_text(error, "Installation cancelled")
}

/// What came of an installation, as an event.
pub fn installation_ended(game_id: String, result: Result<(), String>) -> (event: Event)
    ensures
        match result {
            Ok(()) => event matches Event::Finished(id) && id == game_id,
            Err(words) => event matches Event::Stopped(id, error, cancelled) && id == game_id
                && error == words && cancelled == (words@ == "Installation cancelled"@),
        },
{
    match result {
        Ok(()) => Event::Finished(game_id),
        Err(words) => {
            let cancelled = is_cancellation(words.as_str());
            Event::Stopped(game_id, words, cancelled)
        },
    }
}

/// What came of the removal of a folder.
pub enum Removal {
    Done,
    /// There was no such folder.
    Missing,
    /// It failed; why.
    Failed(String),
}

/// What came of the removal of a game's folder, as an event. A folder that is not there is clear.
pub fn clear_install_dir(game_id: String, removal: Removal) -> (event: Event)
    ensures
        event matches Event::CleanupFinished(id, result) && id == game_id && match removal {
            Removal::Done | Removal::Missing => result is Ok,
            Removal::Failed(words) => result == Err::<(), String>(words),
        },
{
    match removal {
        Removal::Done | Removal::Missing => Event::CleanupFinished(game_id, Ok(())),
        Removal::Failed(words) => Event::CleanupFinished(game_id, Err(words)),
    }
}

impl PreserveApp {
    /// What every step keeps.
    pub closed spec fn wf(self) -> bool {
        self.install_dirs.wf() && self.downloads.wf() && self.pending_cleanup.wf()
    }

    /// The application before it has a catalog, which is to be requested. The address of the
    /// catalog service can be given when the program is run or when it is built.
    pub fn new(at_run: Option<&str>, at_build: Option<&str>) -> (r: (PreserveApp, Effect))
        ensures
            r.0.wf(),
            r.0@ == (AppState {
                api_url: chosen_address(text_view(at_run), text_view(at_build)),
                games: Seq::empty(),
                selected: None,
                dialog_open: false,
                manager_open: false,
                cancel_confirmation: None,
                install_dirs: Map::empty(),
                downloads: Map::empty(),
                pending_cleanup: Map::empty(),
                message: "Loading catalog…"@,
            }),
            r.1 matches Effect::LoadCatalog(address) && address@ == r.0@.api_url,
    {
        let api_url = service_address(at_run, at_build);
        let effect = Effect::LoadCatalog(api_url.clone());
        let app = PreserveApp {
            api_url,
            games: Vec::new(),
            selected: None,
            dialog_open: false,
            manager_open: false,
            cancel_confirmation: None,
            install_dirs: Table::new(),
            downloads: Table::new(),
            pending_cleanup: Table::new(),
            message: "Loading catalog…".to_owned(),
        };
        (app, effect)
    }

    /// Takes over a new catalog: the cover pictures to be fetched.
    fn take_catalog(&mut self, games: Vec<Game>, home: Option<String>) -> (covers: Vec<
        CoverRequest,
    >)
        requires
            old(self).wf(),
        ensures
            final(self).wf(),
            final(self)@ == old(self)@.after(Event::Catalog(Ok((games, home)))),
            requested(covers@) == covers_of(games@),
    {
        let own: Option<&str> = match &home {
            Some(home) => Some(home.as_str()),
            None => None,
        };
        let ghost dirs = self.install_dirs@;
        let mut first: Option<usize> = None;
        let mut covers: Vec<CoverRequest> = Vec::new();
        let mut i: usize = 0;
        proof {
            assert(games@.take(0) =~= Seq::<Game>::empty());
            assert(requested(covers@) =~= covers_of(games@.take(0)));
        }
        while i < games.len()
            invariant
                i <= games@.len(),
                text_view(own) == owned_text(home),
                self.wf(),
                self.install_dirs@ == folders_with(dirs, games@.take(i as int), owned_text(home)),
                dirs == old(self).install_dirs@,
                self.api_url == old(self).api_url,
                self.games == old(self).games,
                self.selected == old(self).selected,
                self.dialog_open == old(self).dialog_open,
                self.manager_open == old(self).manager_open,
                self.cancel_confirmation == old(self).cancel_confirmation,
                self.downloads == old(self).downloads,
                self.pending_cleanup == old(self).pending_cleanup,
                first == first_available(games@.take(i as int)),
                requested(covers@) == covers_of(games@.take(i as int)),
            decreases games@.len() - i,
        {
            let game = &games[i];
            let ghost done = requested(covers@);
            proof {
                assert(games@.take(i + 1).drop_last() =~= games@.take(i as int));
                assert(games@.take(i + 1).last() == *game);
            }
            if first.is_none() && same_text(game.status.as_str(), "available") {
                first = Some(i);
            }
            if !self.install_dirs.contains(game.id.as_str()) {
                let folder = default_install_dir(own, game.id.as_str());
                self.install_dirs.insert(game.id.as_str(), folder);
            }
            match &game.cover_url {
                Some(url) => {
                    covers.push(CoverRequest { game_id: game.id.clone(), url: url.clone() });
                    assert(requested(covers@) =~= done.push((game.id@, url@)));
                },
                None => {},
            }
            i = i + 1;
        }
        assert(games@.take(games@.len() as int) =~= games@);
        self.selected =
        if first.is_none() && games.len() > 0 {
            Some(0)
        } else {
            first
        };
        self.message = String::new();
        self.games = games;
        covers
    }

    /// Takes over what happened elsewhere: what to begin.
    pub fn receive_event(&mut self, event: Event) -> (effect: Effect)
        requires
            old(self).wf(),
        ensures
            final(self).wf(),
            final(self)@ == old(self)@.after(event),
            old(self)@.is_effect(effect, event),
    {
        match event {
            Event::Catalog(Ok((games, home))) => Effect::FetchCovers(
                self.take_catalog(games, home),
            ),
            Event::Catalog(Err(error)) => {
                self.message = error;
                Effect::Nothing
            },
            Event::Cover(game_id, bytes) => show_cover(game_id, decode_cover(bytes.as_slice())),
            Event::Progress(game_id, progress) => {
                if let Some(task) = self.downloads.remove(game_id.as_str()) {
                    let cancel = task.cancel && !progress.phase.is_ended();
                    self.downloads.insert(
                        game_id.as_str(),
                        DownloadTask { target: task.target, progress, cancel },
                    );
                }
                assert(self.downloads@ =~= old(self)@.after(event).downloads);
                Effect::Nothing
            },
            Event::Stopped(game_id, error, cancelled) => {
                if let Some(target) = self.pending_cleanup.remove(game_id.as_str()) {
                    return Effect::ClearFolder { game_id, target };
                }
                assert(self.pending_cleanup@ =~= old(self)@.pending_cleanup);
                if let Some(task) = self.downloads.remove(game_id.as_str()) {
                    let progress = InstallProgress {
                        phase: if cancelled {
                            InstallPhase::Cancelled
                        } else {
                            InstallPhase::Failed
                        },
                        detail: if cancelled {
                            "Download paused. Resume whenever you're ready.".to_owned()
                        } else {
                            error
                        },
                        bytes_per_second: 0,
                        active_downloads: 0,
                        ..task.progress
                    };
                    self.downloads.insert(
                        game_id.as_str(),
                        DownloadTask { target: task.target, progress, cancel: false },
                    );
                }
                assert(self.downloads@ =~= old(self)@.after(event).downloads);
                Effect::Nothing
            },
            Event::Finished(game_id) => match self.pending_cleanup.remove(game_id.as_str()) {
                Some(target) => Effect::ClearFolder { game_id, target },
                None => Effect::Nothing,
            },
            Event::CleanupFinished(game_id, result) => {
                if let Err(error) = result {
                    let mut message = joined("Could not clear ", game_id.as_str());
                    message.append("'s download directory: ");
                    message.append(error.as_str());
                    self.message = message;
                }
                Effect::Nothing
            },
        }
    }

    /// The first game of that name.
    pub fn game_named(&self, game_id: &str) -> (r: Option<&Game>)
        ensures
            match r {
                Some(game) => game_of(self@.games, game_id@) == Some(*game),
                None => game_of(self@.games, game_id@) is None,
            },
    {
        let mut i: usize = 0;
        assert(self.games@.take(0) =~= Seq::<Game>::empty());
        while i < self.games.len()
            invariant
                i <= self.games@.len(),
                game_of(self.games@.take(i as int), game_id@) is None,
            decreases self.games@.len() - i,
        {
            proof {
                assert(self.games@.take(i + 1).drop_last() =~= self.games@.take(i as int));
                lemma_game_of_prefix(self.games@, i + 1, game_id@);
            }
            if same_text(self.games[i].id.as_str(), game_id) {
                return Some(&self.games[i]);
            }
            i = i + 1;
        }
        assert(self.games@.take(self.games@.len() as int) =~= self.games@);
        None
    }

    /// Whether an installation of the game is under way.
    pub fn is_running(&self, game_id: &str) -> (r: bool)
        requires
            self.wf(),
        ensures
            r == self@.running(game_id@),
    {
        match self.downloads.get(game_id) {
            Some(task) => task.progress.phase.is_running(),
            None => false,
        }
    }

    /// Begins the installation of a game, if it is in the catalog, has a folder, and is not being
    /// installed: the installation to be begun.
    pub fn begin_install(&mut self, game_id: &str) -> (r: Option<InstallRequest>)
        requires
            old(self).wf(),
        ensures
            final(self).wf(),
            final(self)@ == old(self)@.begun(game_id@),
            match r {
                Some(request) => old(self)@.can_begin(game_id@) && request.api_url@ == old(
                    self,
                )@.api_url && request.game_id@ == game_id@
                    && request.target@ == old(self)@.install_dirs[game_id@],
                None => !old(self)@.can_begin(game_id@),
            },
    {
        if self.game_named(game_id).is_none() {
            return None;
        }
        let target = match self.install_dirs.get(game_id) {
            Some(target) => target.clone(),
            None => return None,
        };
        if self.is_running(game_id) {
            return None;
        }
        let progress = InstallProgress {
            phase: InstallPhase::Preparing,
            percent: 0,
            detail: "Preparing".to_owned(),
            bytes_done: 0,
            bytes_total: 0,
            bytes_per_second: 0,
            active_downloads: 0,
        };
        self.downloads.insert(
            game_id,
            DownloadTask { target: target.clone(), progress, cancel: true },
        );
        Some(
            InstallRequest {
                api_url: self.api_url.clone(),
                game_id: game_id.to_owned(),
                target,
            },
        )
    }

    /// Whether there is an installation of the game to be told to stop.
    pub fn pause_install(&self, game_id: &str) -> (r: bool)
        requires
            self.wf(),
        ensures
            r == (self@.downloads.contains_key(game_id@) && self@.downloads[game_id@].cancel),
    {
        match self.downloads.get(game_id) {
            Some(task) => task.cancel,
            None => false,
        }
    }

    /// Cancels the download of a game: what to do about its installation and its folder.
    pub fn cancel_install(&mut self, game_id: &str) -> (r: CancelAction)
        requires
            old(self).wf(),
        ensures
            final(self).wf(),
            final(self)@ == old(self)@.cancelled(game_id@),
            match r {
                CancelAction::Nothing => !old(self)@.downloads.contains_key(game_id@),
                CancelAction::Stop => old(self)@.downloads.contains_key(game_id@) && old(
                    self,
                )@.downloads[game_id@].cancel,
                CancelAction::ClearFolder(target) => old(self)@.downloads.contains_key(game_id@)
                    && !old(self)@.downloads[game_id@].cancel && target@ == old(
                    self,
                )@.downloads[game_id@].target,
            },
    {
        match self.downloads.remove(game_id) {
            Some(task) => if task.cancel {
                self.pending_cleanup.insert(game_id, task.target);
                CancelAction::Stop
            } else {
                CancelAction::ClearFolder(task.target)
            },
            None => {
                assert(self.downloads@ =~= old(self)@.downloads);
                CancelAction::Nothing
            },
        }
    }

    /// The last report on the installation of a game.
    pub fn progress_for(&self, game_id: &str) -> (r: InstallProgress)
        requires
            self.wf(),
        ensures
            r@ == self@.progress(game_id@),
    {
        match self.downloads.get(game_id) {
            Some(task) => task.progress.clone(),
            None => InstallProgress::default(),
        }
    }
}

impl PreserveApp {
    /// The games of the catalog.
    pub fn games(&self) -> (r: &Vec<Game>)
        ensures
            r@ == self@.games,
    {
        &self.games
    }

    /// What the user is told.
    pub fn message(&self) -> (r: &str)
        ensures
            r@ == self@.message,
    {
        self.message.as_str()
    }

    /// The download of a game.
    pub fn download(&self, game_id: &str) -> (r: Option<&DownloadTask>)
        requires
            self.wf(),
        ensures
            match r {
                Some(task) => self@.downloads.contains_key(game_id@) && task@
                    == self@.downloads[game_id@],
                None => !self@.downloads.contains_key(game_id@),
            },
    {
        self.downloads.get(game_id)
    }

    /// The folder that a game is to be installed to.
    pub fn folder(&self, game_id: &str) -> (r: Option<&String>)
        requires
            self.wf(),
        ensures
            match r {
                Some(folder) => self@.install_dirs.contains_key(game_id@) && folder@
                    == self@.install_dirs[game_id@],
                None => !self@.install_dirs.contains_key(game_id@),
            },
    {
        self.install_dirs.get(game_id)
    }

    /// Whether there is any download.
    pub fn has_downloads(&self) -> (r: bool)
        requires
            self.wf(),
        ensures
            r == (self@.downloads != Map::<Seq<char>, TaskState>::empty()),
    {
        !self.downloads.is_empty()
    }

    /// How many installations are under way.
    pub fn running_count(&self) -> (r: usize)
        requires
            self.wf(),
        ensures
            running_games(self@.downloads).finite(),
            r == running_games(self@.downloads).len(),
    {
        let ghost names = self.downloads.names();
        let ghost downloads = self.downloads@;
        let mut count: usize = 0;
        let mut i: usize = 0;
        proof {
            self.downloads.lemma_names();
            assert(running_among(downloads, names.take(0)) =~= Set::<Seq<char>>::empty());
        }
        while i < self.downloads.len()
            invariant
                i <= names.len(),
                count <= i,
                self.wf(),
                names == self.downloads.names(),
                downloads == self.downloads@,
                names.no_duplicates(),
                running_among(downloads, names.take(i as int)).finite(),
                count == running_among(downloads, names.take(i as int)).len(),
            decreases names.len() - i,
        {
            let ghost before = running_among(downloads, names.take(i as int));
            let ghost after = running_among(downloads, names.take(i + 1));
            let ghost name = names[i as int];
            proof {
                let shorter = names.take(i as int);
                let longer = names.take(i + 1);
                assert(longer[i as int] == name);
                assert forall|key: Seq<char>| longer.contains(key) implies key == name
                    || shorter.contains(key) by {
                    let k = choose|k: int| 0 <= k < longer.len() && longer[k] == key;
                    if k < i {
                        assert(shorter[k] == key);
                    }
                }
                assert forall|key: Seq<char>| shorter.contains(key) implies longer.contains(
                    key,
                ) by {
                    let k = choose|k: int| 0 <= k < shorter.len() && shorter[k] == key;
                    assert(longer[k] == key);
                }
                assert(!shorter.contains(name));
            }
            if self.downloads.value_at(i).progress.phase.is_running() {
                assert(after =~= before.insert(name));
                count = count + 1;
            } else {
                assert(after =~= before);
            }
            i = i + 1;
        }
        proof {
            assert(names.take(names.len() as int) =~= names);
            assert(running_among(downloads, names) =~= running_games(downloads));
        }
        count
    }

    /// The game whose dialog is shown.
    pub fn dialog_game(&self) -> (r: Option<&Game>)
        ensures
            match r {
                Some(game) => self@.shown_game() == Some(*game),
                None => self@.shown_game() is None,
            },
    {
        if !self.dialog_open {
            return None;
        }
        match self.selected {
            Some(index) => if index < self.games.len() {
                Some(&self.games[index])
            } else {
                None
            },
            None => None,
        }
    }

    /// Whether the list of downloads is shown.
    pub fn is_manager_open(&self) -> (r: bool)
        ensures
            r == self@.manager_open,
    {
        self.manager_open
    }

    /// The game whose download the user is asked about.
    pub fn asked_about(&self) -> (r: Option<&String>)
        ensures
            match r {
                Some(id) => self@.cancel_confirmation == Some(id@),
                None => self@.cancel_confirmation is None,
            },
    {
        match &self.cancel_confirmation {
            Some(id) => Some(id),
            None => None,
        }
    }

    /// Shows the list of downloads.
    pub fn open_manager(&mut self)
        requires
            old(self).wf(),
        ensures
            final(self).wf(),
            final(self)@ == (AppState { dialog_open: false, manager_open: true, ..old(self)@ }),
    {
        self.dialog_open = false;
        self.manager_open = true;
    }

    /// Shows the dialog of a game.
    pub fn open_dialog(&mut self, index: usize)
        requires
            old(self).wf(),
        ensures
            final(self).wf(),
            final(self)@ == (AppState {
                selected: Some(index),
                dialog_open: true,
                manager_open: false,
                ..old(self)@
            }),
    {
        self.selected = Some(index);
        self.manager_open = false;
        self.dialog_open = true;
    }

    /// Closes the dialog of a game.
    pub fn close_dialog(&mut self)
        requires
            old(self).wf(),
        ensures
            final(self).wf(),
            final(self)@ == (AppState { dialog_open: false, ..old(self)@ }),
    {
        self.dialog_open = false;
    }

    /// Closes the list of downloads.
    pub fn close_manager(&mut self)
        requires
            old(self).wf(),
        ensures
            final(self).wf(),
            final(self)@ == (AppState { manager_open: false, ..old(self)@ }),
    {
        self.manager_open = false;
    }

    /// Chooses the folder that a game is to be installed to.
    pub fn choose_folder(&mut self, game_id: &str, folder: String)
        requires
            old(self).wf(),
        ensures
            final(self).wf(),
            final(self)@ == (AppState {
                install_dirs: old(self)@.install_dirs.insert(game_id@, folder@),
                ..old(self)@
            }),
    {
        self.install_dirs.insert(game_id, folder);
    }

    /// Asks the user whether a download shall be cancelled.
    pub fn ask_to_cancel(&mut self, game_id: &str)
        requires
            old(self).wf(),
        ensures
            final(self).wf(),
            final(self)@ == (AppState { cancel_confirmation: Some(game_id@), ..old(self)@ }),
    {
        self.cancel_confirmation = Some(game_id.to_owned());
    }

    /// Takes the user's answer to the question whether a download shall be cancelled. The list of
    /// downloads is closed with the last of them.
    pub fn answer(&mut self, cancel: bool) -> (r: CancelAction)
        requires
            old(self).wf(),
        ensures
            final(self).wf(),
            final(self)@ == old(self)@.answered(cancel),
            match (old(self)@.cancel_confirmation, cancel) {
                (Some(id), true) => match r {
                    CancelAction::Nothing => !old(self)@.downloads.contains_key(id),
                    CancelAction::Stop => old(self)@.downloads.contains_key(id) && old(
                        self,
                    )@.downloads[id].cancel,
                    CancelAction::ClearFolder(target) => old(self)@.downloads.contains_key(id)
                        && !old(self)@.downloads[id].cancel && target@ == old(
                        self,
                    )@.downloads[id].target,
                },
                _ => r is Nothing,
            },
    {
        let mut asked: Option<String> = None;
        core::mem::swap(&mut asked, &mut self.cancel_confirmation);
        match asked {
            Some(id) => if cancel {
                let r = self.cancel_install(id.as_str());
                if self.downloads.is_empty() {
                    self.manager_open = false;
                }
                r
            } else {
                CancelAction::Nothing
            },
            None => CancelAction::Nothing,
        }
    }
}

/// The games whose installations are under way, among the given ones.
pub open spec fn running_among(
    downloads: Map<Seq<char>, TaskState>,
    names: Seq<Seq<char>>,
) -> Set<Seq<char>> {
    Set::new(|name: Seq<char>| names.contains(name) && downloads[name].progress.phase.running())
}

/// The games whose installations are under way.
pub open spec fn running_games(downloads: Map<Seq<char>, TaskState>) -> Set<Seq<char>> {
    Set::new(
        |name: Seq<char>|
            downloads.contains_key(name) && downloads[name].progress.phase.running(),
    )
}

impl AppState {
    /// The game whose dialog is shown.
    pub open spec fn shown_game(self) -> Option<Game> {
        match self.selected {
            Some(index) => if self.dialog_open && index < self.games.len() {
                Some(self.games[index as int])
            } else {
                None
            },
            None => None,
        }
    }

    /// The state once the user has answered whether a download shall be cancelled.
    pub open spec fn answered(self, cancel: bool) -> AppState {
        let quiet = AppState { cancel_confirmation: None, ..self };
        match self.cancel_confirmation {
            Some(id) => if cancel {
                let after = quiet.cancelled(id);
                AppState {
                    manager_open: self.manager_open && after.downloads != Map::<
                        Seq<char>,
                        TaskState,
                    >::empty(),
                    ..after
                }
            } else {
                quiet
            },
            None => quiet,
        }
    }

    /// The last report on the installation of a game.
    pub open spec fn progress(self, id: Seq<char>) -> ProgressState {
        if self.downloads.contains_key(id) {
            self.downloads[id].progress
        } else {
            still(InstallPhase::Idle, 0, Seq::empty(), 0, 0)
        }
    }
}

/// The first game of a name among the first games is the first of all.
proof fn lemma_game_of_prefix(games: Seq<Game>, count: int, id: Seq<char>)
    requires
        0 <= count <= games.len(),
    ensures
        game_of(games.take(count), id) is Some ==> game_of(games, id) == game_of(
            games.take(count),
            id,
        ),
    decreases games.len() - count,
{
    if count < games.len() {
        assert(games.take(count + 1).drop_last() =~= games.take(count));
        lemma_game_of_prefix(games, count + 1, id);
    } else {
        assert(games.take(count) =~= games);
    }
}

/// Installations do not disturb one another: what one game's installation reports, and how it
/// ends, leaves the downloads of all other games as they are, and so does beginning or cancelling
/// it.
pub proof fn law_games_are_independent(
    state: AppState,
    event: Event,
    id: Seq<char>,
    other: Seq<char>,
)
    requires
        other != id,
        event matches Event::Progress(name, _) ==> name@ == id,
        event matches Event::Stopped(name, _, _) ==> name@ == id,
        event matches Event::Finished(name) ==> name@ == id,
    ensures
        state.after(event).downloads.contains_key(other) == state.downloads.contains_key(other),
        state.after(event).downloads[other] == state.downloads[other],
        state.after(event).pending_cleanup.contains_key(other)
            == state.pending_cleanup.contains_key(other),
        state.after(event).pending_cleanup[other] == state.pending_cleanup[other],
        state.begun(id).downloads.contains_key(other) == state.downloads.contains_key(other),
        state.begun(id).downloads[other] == state.downloads[other],
        state.cancelled(id).downloads.contains_key(other) == state.downloads.contains_key(other),
        state.cancelled(id).downloads[other] == state.downloads[other],
        state.cancelled(id).pending_cleanup.contains_key(other)
            == state.pending_cleanup.contains_key(other),
        state.cancelled(id).pending_cleanup[other] == state.pending_cleanup[other],
{
}

/// An installation that is begun is under way, in the folder that was chosen for the game, and
/// cannot be begun a second time.
pub proof fn law_installation_is_begun_once(state: AppState, id: Seq<char>)
    requires
        state.can_begin(id),
    ensures
        state.begun(id).running(id),
        state.begun(id).downloads[id].target == state.install_dirs[id],
        !state.begun(id).can_begin(id),
        state.begun(id).begun(id) == state.begun(id),
{
}

/// A download that was paused keeps the count of what is there, and can be resumed into the
/// folder that is chosen for the game.
pub proof fn law_paused_download_can_be_resumed(
    state: AppState,
    id: String,
    error: String,
)
    requires
        state.downloads.contains_key(id@),
        !state.pending_cleanup.contains_key(id@),
        game_of(state.games, id@) is Some,
        state.install_dirs.contains_key(id@),
    ensures
        ({
            let paused = state.after(Event::Stopped(id, error, true));
            let before = state.downloads[id@].progress;
            let after = paused.downloads[id@].progress;
            &&& after.phase is Cancelled
            &&& after.bytes_done == before.bytes_done
            &&& after.bytes_total == before.bytes_total
            &&& after.percent == before.percent
            &&& paused.can_begin(id@)
            &&& paused.begun(id@).running(id@)
        }),
{
}

/// The folder of a cancelled download is cleared once its installation has stopped or finished,
/// and only then: the event that tells so brings the folder, and no later one does.
pub proof fn law_cancelled_download_is_cleared_once(
    state: AppState,
    id: String,
    ending: Event,
    effect: Effect,
    again: Effect,
)
    requires
        state.downloads.contains_key(id@),
        state.downloads[id@].cancel,
        ending matches Event::Stopped(name, _, _) && name@ == id@ || (ending matches Event::Finished(
            name,
        ) && name@ == id@),
        state.cancelled(id@).is_effect(effect, ending),
        state.cancelled(id@).after(ending).is_effect(again, ending),
    ensures
        effect matches Effect::ClearFolder { game_id, target } && game_id@ == id@ && target@
            == state.downloads[id@].target,
        !state.cancelled(id@).after(ending).pending_cleanup.contains_key(id@),
        !state.cancelled(id@).after(ending).downloads.contains_key(id@),
        again is Nothing,
{
}

/// What an installation still reports after its download was cancelled is ignored.
pub proof fn law_cancelled_download_stays_away(
    state: AppState,
    id: String,
    progress: InstallProgress,
)
    ensures
        state.cancelled(id@).after(Event::Progress(id, progress)) == state.cancelled(id@),
{
}

/// Every game of a catalog has a folder once the catalog is there, and a folder that was chosen
/// before stays chosen.
pub proof fn law_catalog_keeps_folders(
    folders: Map<Seq<char>, Seq<char>>,
    games: Seq<Game>,
    home: Option<Seq<char>>,
)
    ensures
        forall|i: int|
            0 <= i < games.len() ==> folders_with(folders, games, home).contains_key(
                (#[trigger] games[i]).id@,
            ),
        forall|id: Seq<char>| #[trigger]
            folders.contains_key(id) ==> folders_with(folders, games, home).contains_key(id)
                && folders_with(folders, games, home)[id] == folders[id],
    decreases games.len(),
{
    if games.len() > 0 {
        let rest = games.drop_last();
        law_catalog_keeps_folders(folders, rest, home);
        assert forall|i: int| 0 <= i < games.len() implies folders_with(
            folders,
            games,
            home,
        ).contains_key((#[trigger] games[i]).id@) by {
            if i < rest.len() {
                assert(rest[i] == games[i]);
            }
        }
    }
}

/// The game that is selected of a new catalog is one of its games, and one that can be installed,
/// if there is such a one; none before it can be.
pub proof fn law_selection_is_first_available(games: Seq<Game>)
    requires
        games.len() <= usize::MAX,
    ensures
        match selection(games) {
            Some(index) => index < games.len() && ((is_available(games[index as int]) && forall|
                j: int,
            |
                0 <= j < index ==> !is_available(#[trigger] games[j])) || (index == 0 && forall|
                j: int,
            |
                0 <= j < games.len() ==> !is_available(#[trigger] games[j]))),
            None => games.len() == 0,
        },
{
    lemma_first_available(games);
}

proof fn lemma_first_available(games: Seq<Game>)
    requires
        games.len() <= usize::MAX,
    ensures
        match first_available(games) {
            Some(index) => index < games.len() && is_available(games[index as int]) && forall|j: int|
                0 <= j < index ==> !is_available(#[trigger] games[j]),
            None => forall|j: int| 0 <= j < games.len() ==> !is_available(#[trigger] games[j]),
        },
    decreases games.len(),
{
    if games.len() > 0 {
        let rest = games.drop_last();
        lemma_first_available(rest);
        assert(forall|j: int| 0 <= j < rest.len() ==> rest[j] == games[j]);
        if first_available(rest) is None {
            assert forall|j: int| 0 <= j < rest.len() implies !is_available(
                #[trigger] games[j],
            ) by {
                assert(!is_available(rest[j]));
            }
        } else {
            assert forall|j: int| 0 <= j < first_available(rest)->Some_0 implies !is_available(
                #[trigger] games[j],
            ) by {
                assert(!is_available(rest[j]));
            }
        }
    }
}

/// An installation can be begun exactly if the game is in the catalog, has a folder, and is not being
/// prepared, downloaded or verified, nor having its prerequisites installed. It then begins with
/// nothing there and can be told to stop. Nothing else changes, and nothing at all where it cannot be
/// begun.
pub proof fn law_installation_is_begun_if_it_can_be(state: AppState, id: Seq<char>)
    ensures
        state.can_begin(id) <==> {
            &&& exists|i: int| 0 <= i < state.games.len() && #[trigger] state.games[i].id@ == id
            &&& state.install_dirs.contains_key(id)
            &&& state.downloads.contains_key(id) ==> {
                let phase = state.downloads[id].progress.phase;
                phase is Idle || phase is Complete || phase is Cancelled || phase is Failed
            }
        },
        !state.can_begin(id) ==> state.begun(id) == state,
        state.can_begin(id) ==> {
            let after = state.begun(id);
            let task = after.downloads[id];
            &&& after == (AppState { downloads: after.downloads, ..state })
            &&& after.downloads.contains_key(id)
            &&& task.target == state.install_dirs[id]
            &&& task.cancel
            &&& task.progress.phase is Preparing
            &&& task.progress.percent == 0
            &&& task.progress.detail == "Preparing"@
            &&& task.progress.bytes_done == 0
            &&& task.progress.bytes_total == 0
            &&& task.progress.bytes_per_second == 0
            &&& task.progress.active_downloads == 0
        },
{
    law_game_is_found_by_name(state.games, id);
}

/// The game of a name is the first game of the catalog that has it.
pub proof fn law_game_is_found_by_name(games: Seq<Game>, id: Seq<char>)
    ensures
        match game_of(games, id) {
            Some(game) => exists|i: int| 0 <= i < games.len() && #[trigger] games[i] == game
                && game.id@ == id && forall|j: int| 0 <= j < i ==> #[trigger] games[j].id@ != id,
            None => forall|i: int| 0 <= i < games.len() ==> #[trigger] games[i].id@ != id,
        },
    decreases games.len(),
{
    if games.len() > 0 {
        let rest = games.drop_last();
        law_game_is_found_by_name(rest, id);
        assert forall|j: int| 0 <= j < rest.len() implies rest[j] == games[j] by {}
        match game_of(rest, id) {
            Some(game) => {
                let i = choose|i: int|
                    0 <= i < rest.len() && #[trigger] rest[i] == game && game.id@ == id && forall|
                        j: int,
                    |
                        0 <= j < i ==> #[trigger] rest[j].id@ != id;
                assert(games[i] == game);
                assert forall|j: int| 0 <= j < i implies #[trigger] games[j].id@ != id by {
                    assert(rest[j].id@ != id);
                }
            },
            None => {
                assert forall|j: int| 0 <= j < rest.len() implies #[trigger] games[j].id@ != id by {
                    assert(rest[j].id@ != id);
                }
                if games.last().id@ == id {
                    assert(games[games.len() - 1] == games.last());
                }
            },
        }
    }
}

/// What an installation reports is taken over as it is, and nothing else changes. As long as it
/// reports that it is being prepared, downloaded or verified, or that prerequisites are installed, it
/// counts as under way and cannot be begun again. Once it reports that it is complete, was cancelled
/// or failed, it does not, and there is nothing left to be told to stop.
pub proof fn law_installation_is_under_way_until_it_ends(
    state: AppState,
    id: String,
    progress: InstallProgress,
)
    requires
        state.downloads.contains_key(id@),
    ensures
        ({
            let before = state.downloads[id@];
            let after = state.after(Event::Progress(id, progress));
            let task = after.downloads[id@];
            let phase = progress.phase;
            &&& after == (AppState { downloads: after.downloads, ..state })
            &&& after.downloads.contains_key(id@)
            &&& task.progress == progress@
            &&& task.target == before.target
            &&& phase is Preparing || phase is Downloading || phase is Verifying || phase
                is Prerequisites ==> {
                &&& after.running(id@)
                &&& !after.can_begin(id@)
                &&& after.begun(id@) == after
                &&& task.cancel == before.cancel
            }
            &&& phase is Complete || phase is Cancelled || phase is Failed ==> {
                &&& !after.running(id@)
                &&& !task.cancel
                &&& after.can_begin(id@) == (game_of(state.games, id@) is Some
                    && state.install_dirs.contains_key(id@))
            }
            &&& phase is Idle ==> !after.running(id@)
        }),
{
}

/// The state once an installation has reported, one report after the other.
pub open spec fn after_reports(
    state: AppState,
    id: String,
    reports: Seq<InstallProgress>,
) -> AppState
    decreases reports.len(),
{
    if reports.len() == 0 {
        state
    } else {
        after_reports(state, id, reports.drop_last()).after(Event::Progress(id, reports.last()))
    }
}

/// From the moment when an installation is begun until it reports its end, the game counts as being
/// installed and cannot be begun again, whatever it reports on the way.
pub proof fn law_installation_cannot_be_begun_while_it_runs(
    state: AppState,
    id: String,
    reports: Seq<InstallProgress>,
)
    requires
        state.can_begin(id@),
        forall|i: int|
            0 <= i < reports.len() ==> {
                let phase = (#[trigger] reports[i]).phase;
                !(phase is Idle || phase is Complete || phase is Cancelled || phase is Failed)
            },
    ensures
        ({
            let now = after_reports(state.begun(id@), id, reports);
            &&& now.running(id@)
            &&& !now.can_begin(id@)
            &&& now.begun(id@) == now
            &&& now.downloads.contains_key(id@)
            &&& now.downloads[id@].cancel
            &&& now.downloads[id@].target == state.install_dirs[id@]
            &&& running_games(now.downloads).contains(id@)
        }),
    decreases reports.len(),
{
    if reports.len() > 0 {
        let fewer = reports.drop_last();
        assert forall|i: int| 0 <= i < fewer.len() implies {
            let phase = (#[trigger] fewer[i]).phase;
            !(phase is Idle || phase is Complete || phase is Cancelled || phase is Failed)
        } by {
            assert(fewer[i] == reports[i]);
        }
        law_installation_cannot_be_begun_while_it_runs(state, id, fewer);
        let last = reports[reports.len() - 1].phase;
        assert(!(last is Idle || last is Complete || last is Cancelled || last is Failed));
        law_installation_is_under_way_until_it_ends(
            after_reports(state.begun(id@), id, fewer),
            id,
            reports.last(),
        );
    }
}

/// Exactly those games count as being installed whose last report is that they are prepared,
/// downloaded or verified, or that their prerequisites are installed.
pub proof fn law_running_games(state: AppState, id: Seq<char>)
    ensures
        running_games(state.downloads).contains(id) == state.running(id),
        state.running(id) <==> state.downloads.contains_key(id) && {
            let phase = state.downloads[id].progress.phase;
            !(phase is Idle || phase is Complete || phase is Cancelled || phase is Failed)
        },
{
}

/// An installation that stops without having been cancelled stays in the list, not under way any
/// more, with what it had: as paused if it was told to stop, or else as failed, with the reason. It
/// can be begun again.
pub proof fn law_stopped_installation_stays_listed(
    state: AppState,
    id: String,
    error: String,
    told: bool,
)
    requires
        state.downloads.contains_key(id@),
        !state.pending_cleanup.contains_key(id@),
    ensures
        ({
            let before = state.downloads[id@];
            let after = state.after(Event::Stopped(id, error, told));
            let task = after.downloads[id@];
            &&& after == (AppState { downloads: after.downloads, ..state })
            &&& after.downloads.contains_key(id@)
            &&& !after.running(id@)
            &&& !task.cancel
            &&& task.target == before.target
            &&& told ==> task.progress.phase is Cancelled && task.progress.detail
                == "Download paused. Resume whenever you're ready."@
            &&& !told ==> task.progress.phase is Failed && task.progress.detail == error@
            &&& task.progress.percent == before.progress.percent
            &&& task.progress.bytes_done == before.progress.bytes_done
            &&& task.progress.bytes_total == before.progress.bytes_total
            &&& task.progress.bytes_per_second == 0
            &&& task.progress.active_downloads == 0
        }),
{
}

/// Cancelling takes a download out of the list and changes nothing else, but for the folder: where
/// its installation is still there to be told to stop, the folder is kept in mind until it has
/// stopped.
pub proof fn law_cancelled_download_is_taken_out(state: AppState, id: Seq<char>, other: Seq<char>)
    requires
        other != id,
    ensures
        ({
            let after = state.cancelled(id);
            &&& after == (AppState {
                downloads: after.downloads,
                pending_cleanup: after.pending_cleanup,
                ..state
            })
            &&& !after.downloads.contains_key(id)
            &&& after.downloads.contains_key(other) == state.downloads.contains_key(other)
            &&& !state.downloads.contains_key(id) ==> after == state
            &&& state.downloads.contains_key(id) && state.downloads[id].cancel
                ==> after.pending_cleanup.contains_key(id) && after.pending_cleanup[id]
                == state.downloads[id].target
            &&& state.downloads.contains_key(id) && !state.downloads[id].cancel
                ==> after.pending_cleanup == state.pending_cleanup
        }),
{
}

/// Answering the question whether a download shall be cancelled closes the question. Only the answer
/// that it shall be cancels it, and closes the list of downloads with the last of them.
pub proof fn law_answer_is_followed(state: AppState)
    ensures
        state.answered(false) == (AppState { cancel_confirmation: None, ..state }),
        state.answered(true).cancel_confirmation is None,
        state.cancel_confirmation is None ==> state.answered(true) == state,
        state.cancel_confirmation matches Some(id) ==> {
            let after = state.answered(true);
            let left = state.cancelled(id);
            &&& after.downloads == left.downloads
            &&& after.pending_cleanup == left.pending_cleanup
            &&& after.manager_open == (state.manager_open && exists|name: Seq<char>|
                name != id && #[trigger] state.downloads.contains_key(name))
            &&& after == (AppState {
                downloads: after.downloads,
                pending_cleanup: after.pending_cleanup,
                manager_open: after.manager_open,
                cancel_confirmation: None,
                ..state
            })
        },
{
    if let Some(id) = state.cancel_confirmation {
        let left = state.cancelled(id).downloads;
        if left == Map::<Seq<char>, TaskState>::empty() {
            assert forall|name: Seq<char>| name != id implies !#[trigger] state.downloads.contains_key(
                name,
            ) by {
                assert(!left.contains_key(name));
            }
        } else {
            assert(!(left =~= Map::<Seq<char>, TaskState>::empty()));
            let name = choose|name: Seq<char>| left.contains_key(name);
            assert(left.contains_key(name));
            assert(name != id && state.downloads.contains_key(name));
        }
    }
}

/// A catalog that came takes the place of the old one and clears what the user is told, and one that
/// did not leaves everything but what the user is told. Neither disturbs an installation.
pub proof fn law_catalog_disturbs_nothing(
    state: AppState,
    games: Vec<Game>,
    home: Option<String>,
    error: String,
)
    ensures
        ({
            let after = state.after(Event::Catalog(Ok((games, home))));
            &&& after.games == games@
            &&& after.message.len() == 0
            &&& after == (AppState {
                games: after.games,
                selected: after.selected,
                install_dirs: after.install_dirs,
                message: after.message,
                ..state
            })
            &&& after.selected == selection(games@)
            &&& after.install_dirs == folders_with(state.install_dirs, games@, owned_text(home))
        }),
        state.after(Event::Catalog(Err(error))) == (AppState { message: error@, ..state }),
{
}

/// A cover picture, the end of an installation that was not cancelled, and a folder that was cleared
/// change nothing. A folder that could not be cleared is told to the user, with the game and the
/// reason.
pub proof fn law_other_events_change_little(
    state: AppState,
    id: String,
    bytes: Vec<u8>,
    error: String,
    told: bool,
    progress: InstallProgress,
)
    ensures
        state.after(Event::Cover(id, bytes)) == state,
        !state.downloads.contains_key(id@) ==> state.after(Event::Progress(id, progress)) == state,
        state.after(Event::CleanupFinished(id, Ok(()))) == state,
        state.after(Event::Finished(id)) == (AppState {
            pending_cleanup: state.pending_cleanup.remove(id@),
            ..state
        }),
        state.after(Event::CleanupFinished(id, Err(error))) == (AppState {
            message: "Could not clear "@ + id@ + "'s download directory: "@ + error@,
            ..state
        }),
        state.pending_cleanup.contains_key(id@) ==> state.after(Event::Stopped(id, error, told)) == (
        AppState { pending_cleanup: state.pending_cleanup.remove(id@), ..state }),
        !state.downloads.contains_key(id@) && !state.pending_cleanup.contains_key(id@)
            ==> state.after(Event::Stopped(id, error, told)) == state,
{
}

/// Each event has one effect: a catalog has its covers fetched; the end of an installation whose
/// download was cancelled has the folder cleared; every other event, but for a cover picture, has
/// none. A cover picture is shown, if it is one, under a name of its own.
pub proof fn law_effects_of_events(
    state: AppState,
    effect: Effect,
    bytes: Vec<u8>,
    games: Vec<Game>,
    home: Option<String>,
    id: String,
    error: String,
    told: bool,
    progress: InstallProgress,
)
    ensures
        state.is_effect(effect, Event::Catalog(Ok((games, home)))) <==> (effect
            matches Effect::FetchCovers(list) && requested(list@) == covers_of(games@)),
        state.is_effect(effect, Event::Cover(id, bytes)) <==> effect is Nothing || (effect
            matches Effect::ShowCover { game_id, name, image } && game_id@ == id@ && name@
            == "cover-"@ + id@ && image.pixels@.len() == 4 * image.width * image.height),
        state.is_effect(effect, Event::Catalog(Err(error))) <==> effect is Nothing,
        state.is_effect(effect, Event::Progress(id, progress)) <==> effect is Nothing,
        state.is_effect(effect, Event::CleanupFinished(id, Ok(()))) <==> effect is Nothing,
        state.is_effect(effect, Event::CleanupFinished(id, Err(error))) <==> effect is Nothing,
        state.is_effect(effect, Event::Stopped(id, error, told)) == state.is_effect(
            effect,
            Event::Finished(id),
        ),
        state.pending_cleanup.contains_key(id@) ==> (state.is_effect(effect, Event::Finished(id))
            <==> (effect matches Effect::ClearFolder { game_id, target } && game_id@ == id@ && target@
            == state.pending_cleanup[id@])),
        !state.pending_cleanup.contains_key(id@) ==> (state.is_effect(effect, Event::Finished(id))
            <==> effect is Nothing),
{
}

/// The covers of a catalog are those of its games, one after the other: one for each game that has
/// an address for it, and none for another.
pub proof fn law_covers_are_those_of_the_games(first: Seq<Game>, second: Seq<Game>, game: Game)
    ensures
        covers_of(first + second) == covers_of(first) + covers_of(second),
        covers_of(seq![game]) == match game.cover_url {
            Some(url) => seq![(game.id@, url@)],
            None => Seq::empty(),
        },
    decreases second.len(),
{
    if second.len() == 0 {
        assert(first + second =~= first);
        assert(covers_of(first) + covers_of(second) =~= covers_of(first));
    } else {
        law_covers_are_those_of_the_games(first, second.drop_last(), game);
        assert((first + second).drop_last() =~= first + second.drop_last());
        assert(covers_of(first + second) =~= covers_of(first) + covers_of(second));
    }
    assert(seq![game].drop_last() =~= Seq::<Game>::empty());
    assert(covers_of(Seq::<Game>::empty()) =~= Seq::<(Seq<char>, Seq<char>)>::empty());
}

/// Once a catalog is there, exactly those games have a folder that had one or are in the catalog: the
/// one that they had, or else the one that is meant for them.
pub proof fn law_catalog_gives_folders(
    folders: Map<Seq<char>, Seq<char>>,
    games: Seq<Game>,
    home: Option<Seq<char>>,
    id: Seq<char>,
)
    ensures
        folders_with(folders, games, home).contains_key(id) <==> folders.contains_key(id) || exists|
            i: int,
        |
            0 <= i < games.len() && #[trigger] games[i].id@ == id,
        folders_with(folders, games, home).contains_key(id) ==> folders_with(
            folders,
            games,
            home,
        )[id] == if folders.contains_key(id) {
            folders[id]
        } else {
            default_folder(home, id)
        },
    decreases games.len(),
{
    if games.len() > 0 {
        let rest = games.drop_last();
        law_catalog_gives_folders(folders, rest, home, id);
        assert forall|i: int| 0 <= i < rest.len() implies rest[i] == games[i] by {}
        if folders_with(folders, rest, home).contains_key(id) && !folders.contains_key(id) {
            let i = choose|i: int| 0 <= i < rest.len() && #[trigger] rest[i].id@ == id;
            assert(games[i].id@ == id);
        }
        if exists|i: int| 0 <= i < games.len() && #[trigger] games[i].id@ == id {
            let i = choose|i: int| 0 <= i < games.len() && #[trigger] games[i].id@ == id;
            if i < rest.len() {
                assert(rest[i].id@ == id);
            }
        }
        if games.last().id@ == id {
            assert(games[games.len() - 1].id@ == id);
        }
    }
}

/// Unless the user chooses another, a game has a folder of its own, among those of the other games,
/// below the user's own folder or where there is none.
pub proof fn law_folder_that_is_meant_for_a_game(home: Seq<char>, game_id: Seq<char>)
    requires
        is_safe(game_id),
        !is_bare_drive(home),
    ensures
        path_segments(default_folder(Some(home), game_id)) == path_segments(home) + seq![
            ".preserve"@,
            "games"@,
        ] + path_segments(game_id),
        path_segments(default_folder(None, game_id)) == seq![".preserve"@, "games"@]
            + path_segments(game_id),
        default_folder(None, game_id) == joined_path(".preserve\\games"@, game_id),
{
    reveal_strlit(".preserve");
    reveal_strlit("games");
    reveal_strlit(".preserve\\games");
    reveal_strlit(".");
    assert("."@.len() == 1);
    let own = joined_path(home, ".preserve"@);
    lemma_plain_name_is_safe(".preserve"@);
    lemma_plain_name_is_safe("games"@);
    lemma_one_segment(".preserve"@);
    lemma_one_segment("games"@);
    law_joined_path_stays_below(home, ".preserve"@);
    assert(path_segments(own).last() == ".preserve"@);
    lemma_not_a_bare_drive(own);
    law_joined_path_stays_below(own, "games"@);
    let all = joined_path(own, "games"@);
    assert(path_segments(all).last() == "games"@);
    lemma_not_a_bare_drive(all);
    law_joined_path_stays_below(all, game_id);
    assert(path_segments(default_folder(Some(home), game_id)) =~= path_segments(home) + seq![
        ".preserve"@,
        "games"@,
    ] + path_segments(game_id));
    lemma_not_a_bare_drive(".preserve"@);
    law_joined_path_stays_below(".preserve"@, "games"@);
    let bare = joined_path(".preserve"@, "games"@);
    assert(path_segments(bare).last() == "games"@);
    lemma_not_a_bare_drive(bare);
    law_joined_path_stays_below(bare, game_id);
    assert(path_segments(default_folder(None, game_id)) =~= seq![".preserve"@, "games"@]
        + path_segments(game_id));
    assert(!crate::path::is_verbatim(".preserve"@));
    assert(bare =~= ".preserve\\games"@);
}

/// A game can be installed exactly if the catalog says that it is available.
pub proof fn law_available_games(game: Game)
    ensures
        is_available(game) <==> game.status@ == "available"@,
{
}

/// The dialog of a game is shown exactly if it was opened for a place of the catalog at which there
/// is a game. What is known of a game that is not downloaded is that nothing has been begun.
pub proof fn law_what_is_shown(state: AppState, id: Seq<char>)
    ensures
        state.shown_game() matches Some(game) ==> state.dialog_open && (state.selected matches Some(
            index,
        ) && index < state.games.len() && game == state.games[index as int]),
        state.dialog_open && (state.selected matches Some(index) && index < state.games.len())
            ==> state.shown_game() is Some,
        state.downloads.contains_key(id) ==> state.progress(id) == state.downloads[id].progress,
        !state.downloads.contains_key(id) ==> {
            let progress = state.progress(id);
            &&& progress.phase is Idle
            &&& progress.percent == 0
            &&& progress.detail.len() == 0
            &&& progress.bytes_done == 0
            &&& progress.bytes_total == 0
            &&& progress.bytes_per_second == 0
            &&& progress.active_downloads == 0
        },
{
}

/// What is known of a download is where it goes to, what it reported last, and whether it can be told
/// to stop; what is known of a request for a cover is the game and the address.
pub proof fn law_downloads_and_requests_are_seen_whole(
    task: DownloadTask,
    list: Seq<CoverRequest>,
    i: int,
)
    requires
        0 <= i < list.len(),
    ensures
        task@.target == task.target@,
        task@.progress == task.progress@,
        task@.cancel == task.cancel,
        requested(list).len() == list.len(),
        requested(list)[i] == (list[i].game_id@, list[i].url@),
{
}

} // verus!
