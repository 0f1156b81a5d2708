//! What the windows of the application show.

use crate::desktop::{
    default_folder, default_install_dir, game_of, is_available, running_games, AppState, PreserveApp,
    TaskState,
};
use crate::format::{
    bytes_text, eta_text, format_bytes, format_eta, format_speed, phase_name, phase_text,
    speed_text,
};
use crate::models::{Game, InstallPhase, InstallProgress, ProgressState};
use crate::text::{decimal, joined, push_decimal, same_text, text_view};
use vstd::prelude::*;

verus! {

broadcast use vstd::string::group_string_axioms;

/// What is shown of a report.
#[derive(Debug)]
pub struct StatusView {
    pub phase: &'static str,
    pub percent: u8,
    pub percent_text: String,
    pub detail: String,
    pub amount: String,
    pub speed: String,
    pub eta: String,
}

/// What the buttons of a game's dialog are.
#[derive(Debug, PartialEq)]
pub enum DialogControls {
    /// To cancel, and to pause.
    Running,
    /// To begin or resume, under a label, and to cancel as well where the download is paused.
    Start { label: &'static str, enabled: bool, paused: bool },
}

/// The dialog of a game.
#[derive(Debug)]
pub struct DialogView {
    pub title: String,
    pub subtitle: String,
    pub location: String,
    /// Whether another folder can be chosen.
    pub folder_enabled: bool,
    pub status: Option<StatusView>,
    pub controls: DialogControls,
}

/// What the buttons of a download are.
#[derive(Clone, Copy, Debug, PartialEq, Eq, Structural)]
pub enum RowControls {
    /// To cancel, and to pause.
    Running,
    /// To resume, and to cancel.
    Paused,
    /// To resume.
    Failed,
    Nothing,
}

/// A download in the list of downloads.
#[derive(Debug)]
pub struct DownloadRow {
    pub game_id: String,
    pub title: String,
    pub status: StatusView,
    pub remaining: String,
    pub failed: bool,
    pub target: String,
    pub controls: RowControls,
}

/// The question whether a download shall be cancelled.
#[derive(Debug)]
pub struct ConfirmationView {
    pub game_id: String,
    pub text: String,
}

impl StatusView {
    /// Whether this is what is shown of a report.
    pub open spec fn shows(self, progress: ProgressState) -> bool {
        &&& self.phase@ == phase_text(progress.phase)
        &&& self.percent == progress.percent
        &&& self.percent_text@ == decimal(progress.percent as nat) + "%"@
        &&& self.detail@ == progress.detail
        &&& self.amount@ == bytes_text(progress.bytes_done) + " / "@ + bytes_text(
            progress.bytes_total,
        )
        &&& self.speed@ == speed_text(progress.bytes_per_second)
        &&& self.eta@ == eta_text(progress)
    }
}

/// What is shown of a report.
pub fn status(progress: &InstallProgress) -> (r: StatusView)
    ensures
        r.shows(progress@),
{
    let mut percent_text = String::new();
    push_decimal(&mut percent_text, progress.percent as u128);
    percent_text.append("%");
    assert(percent_text@ =~= decimal(progress.percent as nat) + "%"@);
    let mut amount = format_bytes(progress.bytes_done);
    amount.append(" / ");
    amount.append(format_bytes(progress.bytes_total).as_str());
    StatusView {
        phase: phase_name(&progress.phase),
        percent: progress.percent,
        percent_text,
        detail: progress.detail.clone(),
        amount,
        speed: format_speed(progress.bytes_per_second),
        eta: format_eta(progress),
    }
}

/// The label of the button that shows the downloads, for a number of installations under way.
pub open spec fn label_for(running: nat) -> Seq<char> {
    if running > 0 {
        "Downloads  "@ + decimal(running)
    } else {
        "Downloads"@
    }
}

/// The label of the button that shows the downloads, if there are any: how many installations
/// are under way.
pub fn downloads_label(app: &PreserveApp) -> (r: Option<String>)
    requires
        app.wf(),
    ensures
        match r {
            Some(label) => app@.downloads != Map::<Seq<char>, TaskState>::empty() && label@
                == label_for(running_games(app@.downloads).len()),
            None => app@.downloads == Map::<Seq<char>, TaskState>::empty(),
        },
{
    if !app.has_downloads() {
        return None;
    }
    let running: usize = app.running_count();
    if running == 0 {
        return Some("Downloads".to_owned());
    }
    let mut label = "Downloads  ".to_owned();
    push_decimal(&mut label, running as u128);
    Some(label)
}

/// The percentage that the card of a game shows, if it shows one.
pub fn card_percent(app: &PreserveApp, game_id: &str) -> (r: Option<u8>)
    requires
        app.wf(),
    ensures
        r == if app@.downloads.contains_key(game_id@) && !(
        app@.downloads[game_id@].progress.phase is Idle) {
            Some(app@.downloads[game_id@].progress.percent)
        } else {
            None
        },
{
    match app.download(game_id) {
        Some(task) => if task.progress.phase == InstallPhase::Idle {
            None
        } else {
            Some(task.progress.percent)
        },
        None => None,
    }
}

/// What the button that begins an installation says.
pub open spec fn start_label(phase: InstallPhase) -> Seq<char> {
    match phase {
        InstallPhase::Complete => "Installed"@,
        InstallPhase::Cancelled => "Resume install"@,
        _ => "Install game"@,
    }
}

/// Whether these are the buttons of a game's dialog.
pub open spec fn are_dialog_controls(
    controls: DialogControls,
    state: AppState,
    game: Game,
) -> bool {
    let phase = state.progress(game.id@).phase;
    if state.running(game.id@) {
        controls is Running
    } else {
        controls matches DialogControls::Start { label, enabled, paused } && label@ == start_label(
            phase,
        ) && enabled == (is_available(game) && state.install_dirs.contains_key(game.id@) && !(
        phase is Complete)) && paused == (phase is Cancelled)
    }
}

/// The dialog of a game. The user's own folder counts where no folder is chosen for the game.
pub fn install_dialog(app: &PreserveApp, game: &Game, home: Option<&str>) -> (r: DialogView)
    requires
        app.wf(),
    ensures
        r.title@ == game.title@,
        r.subtitle@ == game.year@ + "  ·  "@ + game.size@,
        r.location@ == if app@.install_dirs.contains_key(game.id@) {
            app@.install_dirs[game.id@]
        } else {
            default_folder(text_view(home), game.id@)
        },
        r.folder_enabled == !app@.running(game.id@),
        match r.status {
            Some(status) => !(app@.progress(game.id@).phase is Idle) && status.shows(
                app@.progress(game.id@),
            ),
            None => app@.progress(game.id@).phase is Idle,
        },
        are_dialog_controls(r.controls, app@, *game),
{
    let id = game.id.as_str();
    let progress = app.progress_for(id);
    let running = app.is_running(id);
    let mut subtitle = joined(game.year.as_str(), "  ·  ");
    subtitle.append(game.size.as_str());
    let location = match app.folder(id) {
        Some(folder) => folder.clone(),
        None => default_install_dir(home, id),
    };
    let shown = if progress.phase == InstallPhase::Idle {
        None
    } else {
        Some(status(&progress))
    };
    let controls = if running {
        DialogControls::Running
    } else {
        let label = match progress.phase {
            InstallPhase::Complete => "Installed",
            InstallPhase::Cancelled => "Resume install",
            _ => "Install game",
        };
        let enabled = same_text(game.status.as_str(), "available") && app.folder(id).is_some()
            && progress.phase != InstallPhase::Complete;
        DialogControls::Start { label, enabled, paused: progress.phase == InstallPhase::Cancelled }
    };
    DialogView {
        title: game.title.clone(),
        subtitle,
        location,
        folder_enabled: !running,
        status: shown,
        controls,
    }
}

/// The games that are in the list of downloads, in the order of the catalog.
pub open spec fn listed_games(
    games: Seq<Game>,
    downloads: Map<Seq<char>, TaskState>,
) -> Seq<Seq<char>>
    decreases games.len(),
{
    if games.len() == 0 {
        Seq::empty()
    } else {
        let before = listed_games(games.drop_last(), downloads);
        if downloads.contains_key(games.last().id@) {
            before.push(games.last().id@)
        } else {
            before
        }
    }
}

/// What the buttons of a download are.
pub open spec fn controls_for(phase: InstallPhase) -> RowControls {
    if phase.running() {
        RowControls::Running
    } else {
        match phase {
            InstallPhase::Cancelled => RowControls::Paused,
            InstallPhase::Failed => RowControls::Failed,
            _ => RowControls::Nothing,
        }
    }
}

impl DownloadRow {
    /// Whether this is the row for a game.
    pub open spec fn lists(self, state: AppState, id: Seq<char>) -> bool {
        let task = state.downloads[id];
        &&& self.game_id@ == id
        &&& self.title@ == match game_of(state.games, id) {
            Some(game) => game.title@,
            None => id,
        }
        &&& self.status.shows(task.progress)
        &&& self.remaining@ == eta_text(task.progress) + " remaining"@
        &&& self.failed == (task.progress.phase is Failed)
        &&& self.target@ == task.target
        &&& self.controls == controls_for(task.progress.phase)
    }
}

/// The list of downloads.
pub fn download_manager(app: &PreserveApp) -> (rows: Vec<DownloadRow>)
    requires
        app.wf(),
    ensures
        rows@.len() == listed_games(app@.games, app@.downloads).len(),
        forall|i: int|
            0 <= i < rows@.len() ==> (#[trigger] rows@[i]).lists(
                app@,
                listed_games(app@.games, app@.downloads)[i],
            ),
{
    let games = app.games();
    let mut rows: Vec<DownloadRow> = Vec::new();
    let mut i: usize = 0;
    assert(games@.take(0) =~= Seq::<Game>::empty());
    while i < games.len()
        invariant
            i <= games@.len(),
            games@ == app@.games,
            app.wf(),
            rows@.len() == listed_games(games@.take(i as int), app@.downloads).len(),
            forall|j: int|
                0 <= j < rows@.len() ==> (#[trigger] rows@[j]).lists(
                    app@,
                    listed_games(games@.take(i as int), app@.downloads)[j],
                ),
        decreases games@.len() - i,
    {
        let id = games[i].id.as_str();
        let ghost before = listed_games(games@.take(i as int), app@.downloads);
        assert(games@.take(i + 1).drop_last() =~= games@.take(i as int));
        match app.download(id) {
            Some(task) => {
                let title = match app.game_named(id) {
                    Some(game) => game.title.clone(),
                    None => id.to_owned(),
                };
                let shown = status(&task.progress);
                let remaining = joined(shown.eta.as_str(), " remaining");
                let phase = task.progress.phase;
                let controls = if phase.is_running() {
                    RowControls::Running
                } else {
                    match phase {
                        InstallPhase::Cancelled => RowControls::Paused,
                        InstallPhase::Failed => RowControls::Failed,
                        _ => RowControls::Nothing,
                    }
                };
                let row = DownloadRow {
                    game_id: id.to_owned(),
                    title,
                    status: shown,
                    remaining,
                    failed: phase == InstallPhase::Failed,
                    target: task.target.clone(),
                    controls,
                };
                assert(row.lists(app@, id@));
                rows.push(row);
            },
            None => {},
        }
        i = i + 1;
    }
    assert(games@.take(games@.len() as int) =~= games@);
    rows
}

/// The question whether a download shall be cancelled, if the user is asked.
pub fn cancel_confirmation(app: &PreserveApp) -> (r: Option<ConfirmationView>)
    ensures
        match (app@.cancel_confirmation, r) {
            (Some(id), Some(view)) => {
                let title = match game_of(app@.games, id) {
                    Some(game) => game.title@,
                    None => "this game"@,
                };
                &&& view.game_id@ == id
                &&& view.text@ == "Are you sure you want to cancel "@ + title
                    + "? Its downloaded files will be removed from the selected install folder."@
            },
            (None, None) => true,
            _ => false,
        },
{
    match app.asked_about() {
        Some(id) => {
            let mut text = "Are you sure you want to cancel ".to_owned();
            match app.game_named(id.as_str()) {
                Some(game) => text.append(game.title.as_str()),
                None => text.append("this game"),
            }
            text.append("? Its downloaded files will be removed from the selected install folder.");
            Some(ConfirmationView { game_id: id.clone(), text })
        },
        None => None,
    }
}

/// The buttons of a game's dialog are those for a running installation exactly while it is prepared,
/// downloaded or verified, or its prerequisites are installed. Otherwise it can be begun, if the
/// catalog says that the game is available, it has a folder, and it is not installed already; what
/// the button says, and whether the download can be cancelled too, depends on whether it was paused.
pub proof fn law_buttons_of_the_dialog(controls: DialogControls, state: AppState, game: Game)
    requires
        are_dialog_controls(controls, state, game),
    ensures
        ({
            let known = state.downloads.contains_key(game.id@);
            let phase = state.downloads[game.id@].progress.phase;
            let moves = known && !(phase is Idle || phase is Complete || phase is Cancelled || phase
                is Failed);
            &&& controls is Running <==> moves
            &&& controls matches DialogControls::Start { label, enabled, paused } ==> {
                &&& enabled <==> game.status@ == "available"@ && state.install_dirs.contains_key(
                    game.id@,
                ) && !(known && phase is Complete)
                &&& paused <==> known && phase is Cancelled
                &&& known && phase is Complete ==> label@ == "Installed"@
                &&& known && phase is Cancelled ==> label@ == "Resume install"@
                &&& !known || phase is Idle || phase is Failed ==> label@ == "Install game"@
            }
        }),
{
}

/// The buttons of a download in the list: a running one can be cancelled and paused, a paused one
/// resumed and cancelled, a failed one resumed, and any other has none.
pub proof fn law_buttons_of_a_download(phase: InstallPhase)
    ensures
        controls_for(phase) == RowControls::Running <==> phase is Preparing || phase is Downloading
            || phase is Verifying || phase is Prerequisites,
        controls_for(phase) == RowControls::Paused <==> phase is Cancelled,
        controls_for(phase) == RowControls::Failed <==> phase is Failed,
        controls_for(phase) == RowControls::Nothing <==> phase is Complete || phase is Idle,
{
}

/// The list of downloads follows the catalog: what is listed for one part of it and the next is what
/// is listed for both, and of one game that game exactly if it is downloaded.
pub proof fn law_list_follows_the_catalog(
    first: Seq<Game>,
    second: Seq<Game>,
    game: Game,
    downloads: Map<Seq<char>, TaskState>,
)
    ensures
        listed_games(first + second, downloads) == listed_games(first, downloads) + listed_games(
            second,
            downloads,
        ),
        listed_games(seq![game], downloads) == if downloads.contains_key(game.id@) {
            seq![game.id@]
        } else {
            Seq::empty()
        },
    decreases second.len(),
{
    if second.len() == 0 {
        assert(first + second =~= first);
        assert(listed_games(first, downloads) + listed_games(second, downloads) =~= listed_games(
            first,
            downloads,
        ));
    } else {
        law_list_follows_the_catalog(first, second.drop_last(), game, downloads);
        assert((first + second).drop_last() =~= first + second.drop_last());
        assert(listed_games(first + second, downloads) =~= listed_games(first, downloads)
            + listed_games(second, downloads));
    }
    assert(seq![game].drop_last() =~= Seq::<Game>::empty());
    assert(listed_games(Seq::<Game>::empty(), downloads) =~= Seq::<Seq<char>>::empty());
}

/// What is shown of a report is what it says: its percentage with a percent sign, the bytes that are
/// there and after a slash those that there are in all, the speed, and the time that is left.
pub proof fn law_status_shows_the_report(status: StatusView, progress: ProgressState)
    requires
        status.shows(progress),
    ensures
        status.phase@ == phase_text(progress.phase),
        status.percent == progress.percent,
        status.percent_text@ == decimal(progress.percent as nat).push('%'),
        status.detail@ == progress.detail,
        status.amount@ == bytes_text(progress.bytes_done) + seq![' ', '/', ' '] + bytes_text(
            progress.bytes_total,
        ),
        status.speed@ == speed_text(progress.bytes_per_second),
        status.eta@ == eta_text(progress),
{
    reveal_strlit("%");
    reveal_strlit(" / ");
    assert(decimal(progress.percent as nat) + "%"@ =~= decimal(progress.percent as nat).push('%'));
    assert(" / "@ =~= seq![' ', '/', ' ']);
}

/// A row of the list says which game it is, by the title that the catalog has for it or else by its
/// name, how its installation stands, how long it will take, and where it is installed to.
pub proof fn law_row_shows_the_download(row: DownloadRow, state: AppState, id: Seq<char>)
    requires
        row.lists(state, id),
    ensures
        row.game_id@ == id,
        game_of(state.games, id) matches Some(game) ==> row.title@ == game.title@,
        game_of(state.games, id) is None ==> row.title@ == id,
        row.status.shows(state.downloads[id].progress),
        row.remaining@ == eta_text(state.downloads[id].progress) + " remaining"@,
        row.failed <==> state.downloads[id].progress.phase is Failed,
        row.target@ == state.downloads[id].target,
        row.controls == controls_for(state.downloads[id].progress.phase),
{
}

/// The label of the button that shows the downloads counts those that are under way, and says no
/// number where none is.
pub proof fn law_label_counts_downloads(running: nat)
    ensures
        running == 0 ==> label_for(running) == "Downloads"@,
        running > 0 ==> label_for(running) == "Downloads  "@ + decimal(running),
{
}

} // verus!
