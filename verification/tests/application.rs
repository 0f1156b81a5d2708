use preserve::api::service_address;
use preserve::cover::{decode_cover, CoverImage};
use preserve::desktop::{
    clear_install_dir, default_install_dir, installation_ended, show_cover, CancelAction, Effect,
    Event, PreserveApp, Removal,
};
use preserve::models::{Game, InstallPhase, InstallProgress};
use preserve::screens::{
    cancel_confirmation, card_percent, download_manager, downloads_label, install_dialog,
    DialogControls, RowControls,
};
use preserve::table::Table;
use preserve::window::{is_main_window, lock_native_window};

fn game(id: &str, status: &str, cover: Option<&str>) -> Game {
    Game {
        id: id.to_string(),
        title: format!("{id} the game"),
        short_title: id.to_string(),
        year: "1993".to_string(),
        edition: "First".to_string(),
        size: "2 MB".to_string(),
        status: status.to_string(),
        version: None,
        accent: "red".to_string(),
        cover_url: cover.map(|url| url.to_string()),
    }
}

fn folder_of(id: &str) -> String {
    format!("C:\\Users\\me\\.preserve\\games\\{id}")
}

fn catalog(games: Vec<Game>) -> Event {
    Event::Catalog(Ok((games, Some("C:\\Users\\me".to_string()))))
}

fn app() -> PreserveApp {
    let mut app = PreserveApp::new(None, None).0;
    let _ = app.receive_event(catalog(vec![
        game("quake", "soon", None),
        game("doom", "available", Some("https://cdn.test/doom.png")),
        game("hexen", "available", Some("https://cdn.test/hexen.png")),
    ]));
    app
}

fn report(phase: InstallPhase, percent: u8) -> InstallProgress {
    InstallProgress {
        phase,
        percent,
        detail: "Downloading".to_string(),
        bytes_done: 500,
        bytes_total: 1_000,
        bytes_per_second: 100,
        active_downloads: 2,
    }
}

fn progress(app: &mut PreserveApp, id: &str, phase: InstallPhase, percent: u8) {
    let effect = app.receive_event(Event::Progress(id.to_string(), report(phase, percent)));
    assert!(matches!(effect, Effect::Nothing));
}

#[test]
fn starts_without_a_catalog() {
    let app = PreserveApp::new(None, None).0;
    assert_eq!(app.message(), "Loading catalog…");
    assert!(app.games().is_empty());
    assert!(app.dialog_game().is_none());
    assert!(!app.has_downloads());
    assert_eq!(downloads_label(&app), None);
}

#[test]
fn service_address_can_be_given() {
    let (run, build) = ("https://run.test", "https://build.test");
    let own = "https://preserve.st/api";
    for (at_run, at_build, expected) in [
        (Some(run), Some(build), run),
        (Some(run), None, run),
        (Some(""), Some(build), ""),
        (None, Some(build), build),
        (None, None, own),
    ] {
        assert_eq!(service_address(at_run, at_build), expected);
        match PreserveApp::new(at_run, at_build).1 {
            Effect::LoadCatalog(address) => assert_eq!(address, expected),
            _ => panic!("no catalog is requested"),
        }
    }
    assert_eq!(app().begin_install("doom").unwrap().api_url, own);
}

#[test]
fn catalog_selects_the_first_available_game() {
    let mut app = PreserveApp::new(None, None).0;
    let effect = app.receive_event(catalog(vec![
        game("quake", "soon", None),
        game("doom", "available", Some("https://cdn.test/doom.png")),
        game("hexen", "available", None),
        game("heretic", "soon", Some("https://cdn.test/heretic.png")),
    ]));
    match effect {
        Effect::FetchCovers(covers) => {
            assert_eq!(covers.len(), 2);
            assert_eq!(covers[0].game_id, "doom");
            assert_eq!(covers[0].url, "https://cdn.test/doom.png");
            assert_eq!(covers[1].game_id, "heretic");
        }
        _ => panic!("no covers are fetched"),
    }
    assert_eq!(app.message(), "");
    assert_eq!(app.games().len(), 4);
    assert_eq!(app.folder("quake").unwrap(), &folder_of("quake"));
}

#[test]
fn catalog_without_an_available_game_selects_the_first() {
    let mut app = PreserveApp::new(None, None).0;
    app.open_dialog(7);
    let _ = app.receive_event(catalog(vec![game("quake", "soon", None), game("x", "soon", None)]));
    assert_eq!(app.dialog_game().unwrap().id, "quake");
    let _ = app.receive_event(catalog(Vec::new()));
    assert!(app.dialog_game().is_none());
}

#[test]
fn unavailable_catalog_is_announced() {
    let mut app = PreserveApp::new(None, None).0;
    let event = Event::Catalog(Err("Catalog is unavailable".to_string()));
    assert!(matches!(app.receive_event(event), Effect::Nothing));
    assert_eq!(app.message(), "Catalog is unavailable");
}

#[test]
fn chosen_folders_outlast_a_new_catalog() {
    let mut app = app();
    app.choose_folder("doom", "D:\\Games".to_string());
    let _ = app.receive_event(catalog(vec![
        game("doom", "available", None),
        game("new", "available", None),
    ]));
    assert_eq!(app.folder("doom").unwrap(), "D:\\Games");
    assert_eq!(app.folder("new").unwrap(), &folder_of("new"));
    assert_eq!(app.folder("quake").unwrap(), &folder_of("quake"));
    assert!(app.folder("unknown").is_none());
}

#[test]
fn installations_are_begun_once() {
    let mut app = app();
    let request = app.begin_install("doom").unwrap();
    assert_eq!(request.game_id, "doom");
    assert_eq!(request.target, folder_of("doom"));
    assert!(app.is_running("doom"));
    assert!(app.begin_install("doom").is_none());
    assert!(app.begin_install("unknown").is_none());
    let shown = app.progress_for("doom");
    assert_eq!(shown.phase, InstallPhase::Preparing);
    assert_eq!(shown.detail, "Preparing");
    assert_eq!(app.progress_for("hexen").phase, InstallPhase::Idle);
    assert!(app.begin_install("hexen").is_some());
    assert_eq!(app.running_count(), 2);
}

#[test]
fn games_without_a_folder_are_not_begun() {
    let mut app = PreserveApp::new(None, None).0;
    assert!(app.begin_install("doom").is_none());
    app.choose_folder("doom", "D:\\Games".to_string());
    assert!(app.begin_install("doom").is_none());
}

#[test]
fn games_do_not_disturb_one_another() {
    let mut app = app();
    let _ = app.begin_install("doom");
    let _ = app.begin_install("hexen");
    progress(&mut app, "doom", InstallPhase::Downloading, 40);
    progress(&mut app, "hexen", InstallPhase::Downloading, 10);
    let _ = app.receive_event(installation_ended("doom".to_string(), Err("broken".to_string())));
    assert_eq!(app.progress_for("doom").phase, InstallPhase::Failed);
    assert_eq!(app.progress_for("doom").detail, "broken");
    assert_eq!(app.progress_for("hexen").percent, 10);
    assert!(app.is_running("hexen"));
}

#[test]
fn paused_download_is_resumed() {
    let mut app = app();
    let _ = app.begin_install("doom");
    progress(&mut app, "doom", InstallPhase::Downloading, 40);
    assert!(app.pause_install("doom"));
    let stopped = installation_ended("doom".to_string(), Err("Installation cancelled".to_string()));
    assert!(matches!(stopped, Event::Stopped(_, _, true)));
    assert!(matches!(app.receive_event(stopped), Effect::Nothing));
    let shown = app.progress_for("doom");
    assert_eq!(shown.phase, InstallPhase::Cancelled);
    assert_eq!(shown.detail, "Download paused. Resume whenever you're ready.");
    assert_eq!(shown.percent, 40);
    assert_eq!(shown.bytes_done, 500);
    assert_eq!(shown.bytes_per_second, 0);
    assert_eq!(shown.active_downloads, 0);
    assert!(!app.pause_install("doom"));
    assert_eq!(app.begin_install("doom").unwrap().target, folder_of("doom"));
    assert!(app.is_running("doom"));
}

#[test]
fn cancelled_download_is_cleared_once_it_has_stopped() {
    let mut app = app();
    let _ = app.begin_install("doom");
    app.open_manager();
    app.ask_to_cancel("doom");
    assert_eq!(app.asked_about().unwrap(), "doom");
    assert!(matches!(app.answer(true), CancelAction::Stop));
    assert!(app.asked_about().is_none());
    assert!(!app.is_manager_open());
    assert!(!app.has_downloads());
    progress(&mut app, "doom", InstallPhase::Downloading, 41);
    assert!(app.download("doom").is_none());
    let ending = || installation_ended("doom".to_string(), Err("Installation cancelled".to_string()));
    match app.receive_event(ending()) {
        Effect::ClearFolder { game_id, target } => {
            assert_eq!(game_id, "doom");
            assert_eq!(target, folder_of("doom"));
        }
        _ => panic!("the folder stays"),
    }
    assert!(matches!(app.receive_event(ending()), Effect::Nothing));
}

#[test]
fn cancelled_download_that_finishes_is_cleared() {
    let mut app = app();
    let _ = app.begin_install("doom");
    assert!(matches!(app.cancel_install("doom"), CancelAction::Stop));
    let ending = installation_ended("doom".to_string(), Ok(()));
    assert!(matches!(ending, Event::Finished(_)));
    assert!(matches!(app.receive_event(ending), Effect::ClearFolder { .. }));
    let again = installation_ended("doom".to_string(), Ok(()));
    assert!(matches!(app.receive_event(again), Effect::Nothing));
}

#[test]
fn stopped_download_is_cleared_at_once() {
    let mut app = app();
    let _ = app.begin_install("doom");
    let _ = app.receive_event(installation_ended("doom".to_string(), Err("broken".to_string())));
    match app.cancel_install("doom") {
        CancelAction::ClearFolder(target) => assert_eq!(target, folder_of("doom")),
        _ => panic!("the folder stays"),
    }
    assert!(matches!(app.cancel_install("doom"), CancelAction::Nothing));
}

#[test]
fn complete_download_cannot_be_paused() {
    let mut app = app();
    let _ = app.begin_install("doom");
    progress(&mut app, "doom", InstallPhase::Complete, 100);
    assert!(!app.pause_install("doom"));
    assert!(!app.is_running("doom"));
}

#[test]
fn going_back_cancels_nothing() {
    let mut app = app();
    let _ = app.begin_install("doom");
    app.open_manager();
    app.ask_to_cancel("doom");
    assert!(matches!(app.answer(false), CancelAction::Nothing));
    assert!(app.asked_about().is_none());
    assert!(app.is_manager_open());
    assert!(app.is_running("doom"));
    assert!(matches!(app.answer(true), CancelAction::Nothing));
    assert!(app.is_running("doom"));
}

#[test]
fn cleared_folders_are_announced_when_they_stay() {
    let mut app = app();
    let missing = clear_install_dir("doom".to_string(), Removal::Missing);
    let _ = app.receive_event(missing);
    let _ = app.receive_event(clear_install_dir("doom".to_string(), Removal::Done));
    assert_eq!(app.message(), "");
    let failed = Removal::Failed("access denied".to_string());
    let _ = app.receive_event(clear_install_dir("doom".to_string(), failed));
    assert_eq!(app.message(), "Could not clear doom's download directory: access denied");
}

#[test]
fn windows_take_turns() {
    let mut app = app();
    app.open_dialog(2);
    assert_eq!(app.dialog_game().unwrap().id, "hexen");
    app.open_manager();
    assert!(app.dialog_game().is_none());
    assert!(app.is_manager_open());
    app.open_dialog(0);
    assert!(!app.is_manager_open());
    app.close_dialog();
    assert!(app.dialog_game().is_none());
    app.open_manager();
    app.close_manager();
    assert!(!app.is_manager_open());
}

#[test]
fn label_counts_what_is_under_way() {
    let mut app = app();
    let _ = app.begin_install("doom");
    let _ = app.begin_install("hexen");
    assert_eq!(downloads_label(&app).unwrap(), "Downloads  2");
    progress(&mut app, "doom", InstallPhase::Complete, 100);
    assert_eq!(downloads_label(&app).unwrap(), "Downloads  1");
    progress(&mut app, "hexen", InstallPhase::Failed, 3);
    assert_eq!(downloads_label(&app).unwrap(), "Downloads");
}

#[test]
fn cards_show_percentages() {
    let mut app = app();
    assert_eq!(card_percent(&app, "doom"), None);
    let _ = app.begin_install("doom");
    assert_eq!(card_percent(&app, "doom"), Some(0));
    progress(&mut app, "doom", InstallPhase::Downloading, 40);
    assert_eq!(card_percent(&app, "doom"), Some(40));
    progress(&mut app, "doom", InstallPhase::Idle, 40);
    assert_eq!(card_percent(&app, "doom"), None);
}

#[test]
fn games_have_a_folder_of_their_own() {
    assert_eq!(default_install_dir(Some("C:\\Users\\me"), "doom"), folder_of("doom"));
    assert_eq!(default_install_dir(None, "doom"), ".preserve\\games\\doom");
    assert_eq!(default_install_dir(Some("C:\\Users\\me"), "E:\\doom"), "E:\\doom");
    let mut app = PreserveApp::new(None, None).0;
    let games = vec![game("doom", "available", None)];
    let _ = app.receive_event(Event::Catalog(Ok((games, None))));
    assert_eq!(app.folder("doom").unwrap(), ".preserve\\games\\doom");
}

#[test]
fn dialog_of_a_game() {
    let mut app = app();
    let doom = app.game_named("doom").unwrap().clone();
    let view = install_dialog(&app, &doom, None);
    assert_eq!(view.title, "doom the game");
    assert_eq!(view.subtitle, "1993  ·  2 MB");
    assert_eq!(view.location, folder_of("doom"));
    assert!(view.folder_enabled);
    assert!(view.status.is_none());
    let start = |label, enabled, paused| DialogControls::Start { label, enabled, paused };
    assert_eq!(view.controls, start("Install game", true, false));
    let quake = app.game_named("quake").unwrap().clone();
    let view = install_dialog(&app, &quake, None);
    assert_eq!(view.controls, start("Install game", false, false));
    let view = install_dialog(&app, &game("unknown", "available", None), Some("D:\\"));
    assert_eq!(view.location, "D:\\.preserve\\games\\unknown");
    assert_eq!(view.controls, start("Install game", false, false));
    let _ = app.begin_install("doom");
    progress(&mut app, "doom", InstallPhase::Downloading, 40);
    let view = install_dialog(&app, &doom, None);
    assert_eq!(view.controls, DialogControls::Running);
    assert!(!view.folder_enabled);
    let status = view.status.unwrap();
    assert_eq!(status.phase, "DOWNLOADING");
    assert_eq!(status.percent, 40);
    assert_eq!(status.percent_text, "40%");
    assert_eq!(status.detail, "Downloading");
    assert_eq!(status.amount, "500 B / 1.0 KB");
    assert_eq!(status.speed, "100 B/s");
    assert_eq!(status.eta, "< 1 min");
    progress(&mut app, "doom", InstallPhase::Cancelled, 40);
    let view = install_dialog(&app, &doom, None);
    assert_eq!(view.controls, start("Resume install", true, true));
    progress(&mut app, "doom", InstallPhase::Complete, 100);
    let view = install_dialog(&app, &doom, None);
    assert_eq!(view.controls, start("Installed", false, false));
    progress(&mut app, "doom", InstallPhase::Failed, 100);
    let view = install_dialog(&app, &doom, None);
    assert_eq!(view.controls, start("Install game", true, false));
}

#[test]
fn list_of_downloads_follows_the_catalog() {
    let mut app = app();
    let _ = app.begin_install("hexen");
    let _ = app.begin_install("doom");
    progress(&mut app, "hexen", InstallPhase::Failed, 3);
    let rows = download_manager(&app);
    assert_eq!(rows.len(), 2);
    assert_eq!(rows[0].game_id, "doom");
    assert_eq!(rows[0].title, "doom the game");
    assert_eq!(rows[0].status.phase, "PREPARING");
    assert_eq!(rows[0].controls, RowControls::Running);
    assert_eq!(rows[0].target, folder_of("doom"));
    assert_eq!(rows[0].remaining, "— remaining");
    assert!(!rows[0].failed);
    assert_eq!(rows[1].game_id, "hexen");
    assert_eq!(rows[1].controls, RowControls::Failed);
    assert!(rows[1].failed);
    assert_eq!(rows[1].remaining, "< 1 min remaining");
    progress(&mut app, "hexen", InstallPhase::Cancelled, 3);
    progress(&mut app, "doom", InstallPhase::Complete, 100);
    let rows = download_manager(&app);
    assert_eq!(rows[0].controls, RowControls::Nothing);
    assert_eq!(rows[1].controls, RowControls::Paused);
}

#[test]
fn question_names_the_game() {
    let mut app = app();
    assert!(cancel_confirmation(&app).is_none());
    app.ask_to_cancel("doom");
    let view = cancel_confirmation(&app).unwrap();
    assert_eq!(view.game_id, "doom");
    assert_eq!(
        view.text,
        "Are you sure you want to cancel doom the game? Its downloaded files will be removed \
         from the selected install folder."
    );
    app.ask_to_cancel("unknown");
    let view = cancel_confirmation(&app).unwrap();
    assert!(view.text.starts_with("Are you sure you want to cancel this game? "));
}

fn picture() -> Vec<u8> {
    let pixels = vec![255, 0, 0, 255, 0, 255, 0, 128];
    let picture = image::RgbaImage::from_raw(2, 1, pixels).unwrap();
    let mut file = std::io::Cursor::new(Vec::new());
    picture.write_to(&mut file, image::ImageFormat::Png).unwrap();
    file.into_inner()
}

#[test]
fn covers_are_decoded() {
    let cover = decode_cover(&picture()).unwrap();
    assert_eq!((cover.width, cover.height), (2, 1));
    assert_eq!(cover.pixels, [255, 0, 0, 255, 0, 255, 0, 128]);
    assert!(decode_cover(b"no picture").is_none());
    assert!(decode_cover(b"").is_none());
}

#[test]
fn covers_are_shown_under_their_names() {
    let mut app = app();
    match app.receive_event(Event::Cover("doom".to_string(), picture())) {
        Effect::ShowCover { game_id, name, image } => {
            assert_eq!(game_id, "doom");
            assert_eq!(name, "cover-doom");
            assert_eq!(image.width, 2);
        }
        _ => panic!("no cover is shown"),
    }
    let effect = app.receive_event(Event::Cover("doom".to_string(), b"no picture".to_vec()));
    assert!(matches!(effect, Effect::Nothing));
    assert!(matches!(show_cover("doom".to_string(), None), Effect::Nothing));
    let image = CoverImage { width: 0, height: 0, pixels: Vec::new() };
    let effect = show_cover("doom".to_string(), Some(image));
    assert!(matches!(effect, Effect::ShowCover { .. }));
}

#[test]
fn tables_hold_one_value_for_each_name() {
    let mut table: Table<String> = Table::new();
    assert!(table.is_empty());
    table.insert("a", "1".to_string());
    table.insert("b", "2".to_string());
    table.insert("a", "3".to_string());
    assert_eq!(table.len(), 2);
    assert_eq!(table.get("a").unwrap(), "3");
    assert_eq!(table.get("b").unwrap(), "2");
    assert!(table.get("c").is_none());
    assert_eq!(table.remove("a").unwrap(), "3");
    assert!(table.remove("a").is_none());
    assert!(!table.contains("a"));
    assert!(table.contains("b"));
    assert_eq!(table.value_at(0), "2");
}

#[test]
fn windows_are_locked() {
    assert_eq!(lock_native_window(0x16cf_0000), 0x16ca_0000);
    assert_eq!(lock_native_window(0), 0);
    assert_eq!(lock_native_window(0x0005_0000), 0);
    assert_eq!(lock_native_window(-1), !0x0005_0000);
    assert!(is_main_window(7, 7, true, 8));
    assert!(!is_main_window(7, 8, true, 8));
    assert!(!is_main_window(7, 7, false, 8));
    assert!(!is_main_window(7, 7, true, 0));
}
