use preserve::errors::InstallError;
use preserve::installer::{
    file_job, install, install_prerequisites, plan_fits, preparing, prerequisite_fetched,
    InstallAction, InstallEvent, InstallStage, Installation,
};
use preserve::models::{
    DownloadPlan, ExtractedPrerequisite, Game, GameManifest, InstallPhase, InstallProgress,
    ManifestFile, Prerequisite,
};
use preserve::prerequisite::{
    ensure_success, folder_to_unpack_to, prerequisite_call, prerequisite_folder, run_prerequisite,
    CommandLine, ProgramEnd,
};

fn file(path: &str, size: u64) -> ManifestFile {
    ManifestFile { path: path.to_string(), sha256: format!("digest-of-{path}"), size }
}

fn prerequisite(name: &str, path: &str, args: &str) -> Prerequisite {
    Prerequisite {
        name: name.to_string(),
        file: file(path, 5),
        args: args.to_string(),
        extracted: None,
    }
}

fn plan(files: Vec<ManifestFile>, prerequisites: Vec<Prerequisite>) -> DownloadPlan {
    DownloadPlan {
        game: Game {
            id: "doom".to_string(),
            title: "Doom".to_string(),
            short_title: "D".to_string(),
            year: "1993".to_string(),
            edition: "First".to_string(),
            size: "2 MB".to_string(),
            status: "available".to_string(),
            version: None,
            accent: "red".to_string(),
            cover_url: None,
        },
        manifest: GameManifest {
            version: "1.9".to_string(),
            entry_exe: "doom.exe".to_string(),
            total_size_bytes: 100,
            files,
            prerequisites,
        },
        file_base_url: "https://cdn.test/files".to_string(),
        prerequisite_base_url: "https://cdn.test/tools".to_string(),
        content_addressed: false,
    }
}

fn failure(action: InstallAction) -> String {
    match action {
        InstallAction::Fail(error) => error.message(),
        _ => panic!("no failure"),
    }
}

fn check(
    report: Option<InstallProgress>,
    phase: InstallPhase,
    percent: u8,
    detail: &str,
    done: u64,
    total: u64,
) {
    let report = report.unwrap();
    assert_eq!(report.phase, phase);
    assert_eq!(report.percent, percent);
    assert_eq!(report.detail, detail);
    assert_eq!(report.bytes_done, done);
    assert_eq!(report.bytes_total, total);
    assert_eq!(report.bytes_per_second, 0);
    assert_eq!(report.active_downloads, 0);
}

fn program(action: InstallAction) -> CommandLine {
    match action {
        InstallAction::RunProgram(line) => line,
        _ => panic!("nothing to run"),
    }
}

fn ended(success: bool) -> InstallEvent {
    let status = if success { "exit code: 0" } else { "exit code: 5" };
    InstallEvent::ProgramEnded(Ok(ProgramEnd { success, status: status.to_string() }))
}

#[test]
fn installations_open_with_a_report() {
    let detail = "Preparing a verified download";
    check(Some(preparing()), InstallPhase::Preparing, 0, detail, 0, 0);
}

#[test]
fn whole_installation() {
    let plan = plan(
        vec![file("doom.exe", 60), file("doom.wad", 40)],
        vec![prerequisite("Runtime", "vc.exe", "/quiet")],
    );
    assert!(plan_fits(&plan));
    let mut installation = Installation::new(plan, "C:\\Games\\doom");
    assert_eq!(installation.follows().manifest.version, "1.9");
    assert!(installation.is_file_due());
    let (report, action) = install(&mut installation, InstallEvent::FileDue { cancelled: false });
    assert!(report.is_none());
    match action {
        InstallAction::DownloadFile(job) => {
            assert_eq!(job.destination, "C:\\Games\\doom\\doom.exe");
            assert_eq!(job.url, "https://cdn.test/files/doom.exe");
        }
        _ => panic!("nothing to download"),
    }
    assert!(matches!(
        install(&mut installation, InstallEvent::FileDue { cancelled: false }).1,
        InstallAction::DownloadFile(_)
    ));
    assert_eq!(installation.begun(), 2);
    assert!(!installation.is_file_due());
    let event = InstallEvent::FileAdvanced { before: 0, bytes: 50 };
    assert!(matches!(install(&mut installation, event).1, InstallAction::Wait));
    let (report, _) = install(&mut installation, InstallEvent::Tick { now: 0, cancelled: false });
    let report = report.unwrap();
    assert_eq!(report.phase, InstallPhase::Downloading);
    assert_eq!(report.percent, 47);
    assert_eq!(report.detail, "Downloading 2 files · doom.wad");
    assert_eq!(report.active_downloads, 2);
    let _ = install(&mut installation, InstallEvent::FileEnded(Ok(())));
    assert!(!installation.has_all_files());
    let _ = install(&mut installation, InstallEvent::FileEnded(Ok(())));
    assert!(installation.has_all_files());
    let (report, action) = install(&mut installation, InstallEvent::FilesDone);
    check(report, InstallPhase::Verifying, 95, "All files verified", 50, 100);
    assert!(matches!(action, InstallAction::NextPrerequisite { clear: None }));
    let event = InstallEvent::PrerequisiteDue { cancelled: false };
    let (report, action) = install(&mut installation, event);
    check(report, InstallPhase::Prerequisites, 97, "Installing Runtime", 0, 0);
    match action {
        InstallAction::FetchPrerequisite(job) => {
            assert_eq!(job.destination, "C:\\Games\\doom\\.preserve\\prerequisites\\vc.exe");
            assert_eq!(job.url, "https://cdn.test/tools/vc.exe");
        }
        _ => panic!("no prerequisite"),
    }
    let line = program(install(&mut installation, prerequisite_fetched(Ok(()))).1);
    assert_eq!(line.program, "C:\\Games\\doom\\.preserve\\prerequisites\\vc.exe");
    assert_eq!(line.args, ["/quiet"]);
    let (_, action) = install(&mut installation, ended(true));
    assert!(matches!(action, InstallAction::NextPrerequisite { clear: None }));
    assert_eq!(installation.installed(), 1);
    let event = InstallEvent::PrerequisiteDue { cancelled: true };
    let (report, action) = install(&mut installation, event);
    assert!(report.is_none());
    assert!(matches!(action, InstallAction::Record));
    let (report, action) = install(&mut installation, InstallEvent::Recorded(Ok(())));
    check(report, InstallPhase::Complete, 100, "Doom is ready", 100, 100);
    assert!(matches!(action, InstallAction::Done));
    assert!(installation.stage() == InstallStage::Finished);
}

#[test]
fn eight_downloads_at_a_time() {
    let files = (0..20).map(|i| file(&format!("{i}.bin"), 5)).collect();
    let mut installation = Installation::new(plan(files, Vec::new()), "C:\\Games");
    let mut begun = 0;
    while installation.is_file_due() {
        let _ = install(&mut installation, InstallEvent::FileDue { cancelled: false });
        begun += 1;
    }
    assert_eq!(begun, 8);
    let _ = install(&mut installation, InstallEvent::FileEnded(Ok(())));
    assert!(installation.is_file_due());
}

#[test]
fn unsafe_manifest_ends_the_installation() {
    let mut installation =
        Installation::new(plan(vec![file("..\\evil.exe", 1)], Vec::new()), "C:\\Games");
    let (_, action) = install(&mut installation, InstallEvent::FileDue { cancelled: false });
    assert_eq!(failure(action), "Manifest contains an unsafe path");
    assert!(installation.stage() == InstallStage::Finished);
}

#[test]
fn failed_file_ends_the_installation() {
    let mut installation =
        Installation::new(plan(vec![file("a", 1), file("b", 1)], Vec::new()), "C:\\Games");
    let _ = install(&mut installation, InstallEvent::FileDue { cancelled: false });
    let error = InstallError::Corrupt("a".to_string());
    let (_, action) = install(&mut installation, InstallEvent::FileEnded(Err(error)));
    assert_eq!(failure(action), "Integrity check failed for a");
    assert!(installation.stage() == InstallStage::Finished);
    assert!(!installation.is_file_due());
}

#[test]
fn cancelled_installation_ends() {
    let fresh = || {
        Installation::new(
            plan(vec![file("a", 1)], vec![prerequisite("Runtime", "vc.exe", "")]),
            "C:\\Games",
        )
    };
    let mut installation = fresh();
    let (_, action) = install(&mut installation, InstallEvent::FileDue { cancelled: true });
    assert_eq!(failure(action), "Installation cancelled");
    let mut installation = fresh();
    let event = InstallEvent::Tick { now: 0, cancelled: true };
    let (report, action) = install(&mut installation, event);
    assert!(report.is_none());
    assert_eq!(failure(action), "Installation cancelled");
    let plan = plan(Vec::new(), vec![prerequisite("Runtime", "vc.exe", "")]);
    let (report, action) = install_prerequisites(&plan, "C:\\Games", 0, true);
    assert!(report.is_none());
    assert_eq!(failure(action), "Installation cancelled");
}

/// An installation whose only prerequisite is being downloaded.
fn fetching(entry: Prerequisite) -> Installation {
    let mut installation = Installation::new(plan(Vec::new(), vec![entry]), "C:\\Games");
    let _ = install(&mut installation, InstallEvent::FilesDone);
    let event = InstallEvent::PrerequisiteDue { cancelled: false };
    assert!(matches!(install(&mut installation, event).1, InstallAction::FetchPrerequisite(_)));
    assert!(installation.stage() == InstallStage::Fetching);
    installation
}

fn unpacking() -> Prerequisite {
    let mut entry = prerequisite("DirectX", "dx.exe", "/Q /T:{extract}");
    entry.extracted = Some(ExtractedPrerequisite {
        exe: "DXSETUP.exe".to_string(),
        args: "/silent".to_string(),
    });
    entry
}

#[test]
fn prerequisite_is_not_run_unless_it_was_fetched() {
    for entry in [prerequisite("Runtime", "vc.exe", ""), unpacking()] {
        let mut installation = fetching(entry);
        assert!(!installation.is_awaited(&ended(true)));
        let error = InstallError::Corrupt("vc.exe".to_string());
        let (_, action) = install(&mut installation, prerequisite_fetched(Err(error)));
        assert_eq!(failure(action), "Integrity check failed for vc.exe");
        assert!(installation.stage() == InstallStage::Finished);
        assert_eq!(installation.installed(), 0);
        assert!(!installation.is_awaited(&ended(true)));
    }
}

#[test]
fn failed_prerequisite_ends_the_installation() {
    let mut installation = fetching(prerequisite("Runtime", "vc.exe", ""));
    let _ = program(install(&mut installation, prerequisite_fetched(Ok(()))).1);
    let (_, action) = install(&mut installation, ended(false));
    assert_eq!(failure(action), "Runtime failed with exit code: 5");
    assert!(installation.stage() == InstallStage::Finished);
    let mut installation = fetching(prerequisite("Runtime", "vc.exe", ""));
    let _ = program(install(&mut installation, prerequisite_fetched(Ok(()))).1);
    let error = InstallError::Other("no such program".to_string());
    let (_, action) = install(&mut installation, InstallEvent::ProgramEnded(Err(error)));
    assert_eq!(failure(action), "no such program");
}

#[test]
fn second_program_is_run_only_after_the_first() {
    let event = || InstallEvent::PrerequisiteFetched { result: Ok(()), identifier: "x".to_string() };
    let folder = "C:\\Games\\.preserve\\prereq-x";
    let mut installation = fetching(unpacking());
    match install(&mut installation, event()).1 {
        InstallAction::MakeFolder(made) => assert_eq!(made, folder),
        _ => panic!("no folder"),
    }
    let line = program(install(&mut installation, InstallEvent::FolderMade(Ok(()))).1);
    assert_eq!(line.program, "C:\\Games\\.preserve\\prerequisites\\dx.exe");
    assert_eq!(line.args, ["/Q".to_string(), format!("/T:{folder}")]);
    let line = program(install(&mut installation, ended(true)).1);
    assert_eq!(line.program, format!("{folder}\\DXSETUP.exe"));
    assert_eq!(line.args, ["/silent"]);
    assert_eq!(installation.installed(), 0);
    match install(&mut installation, ended(true)).1 {
        InstallAction::NextPrerequisite { clear } => assert_eq!(clear.unwrap(), folder),
        _ => panic!("no end"),
    }
    assert_eq!(installation.installed(), 1);

    let mut installation = fetching(unpacking());
    let _ = install(&mut installation, event());
    let _ = install(&mut installation, InstallEvent::FolderMade(Ok(())));
    let (_, action) = install(&mut installation, ended(false));
    assert_eq!(failure(action), "DirectX failed with exit code: 5");
    assert_eq!(installation.installed(), 0);

    let mut installation = fetching(unpacking());
    let _ = install(&mut installation, event());
    let error = InstallError::Other("disk full".to_string());
    let (_, action) = install(&mut installation, InstallEvent::FolderMade(Err(error)));
    assert_eq!(failure(action), "disk full");
}

#[test]
fn events_are_awaited_in_their_turn() {
    let installation = Installation::new(plan(vec![file("a", 1)], Vec::new()), "C:\\Games");
    assert!(installation.is_awaited(&InstallEvent::FileDue { cancelled: false }));
    assert!(installation.is_awaited(&InstallEvent::Tick { now: 0, cancelled: false }));
    assert!(installation.is_awaited(&InstallEvent::FileAdvanced { before: 0, bytes: 1 }));
    assert!(!installation.is_awaited(&InstallEvent::FileEnded(Ok(()))));
    assert!(!installation.is_awaited(&InstallEvent::FilesDone));
    assert!(!installation.is_awaited(&InstallEvent::PrerequisiteDue { cancelled: false }));
    assert!(!installation.is_awaited(&prerequisite_fetched(Ok(()))));
    assert!(!installation.is_awaited(&InstallEvent::FolderMade(Ok(()))));
    assert!(!installation.is_awaited(&ended(true)));
    assert!(!installation.is_awaited(&InstallEvent::Recorded(Ok(()))));
}

#[test]
fn unrecorded_installation_fails() {
    let mut installation = Installation::new(plan(Vec::new(), Vec::new()), "C:\\Games");
    let _ = install(&mut installation, InstallEvent::FilesDone);
    let _ = install(&mut installation, InstallEvent::PrerequisiteDue { cancelled: false });
    let error = InstallError::Other("disk full".to_string());
    let (report, action) = install(&mut installation, InstallEvent::Recorded(Err(error)));
    assert!(report.is_none());
    assert_eq!(failure(action), "disk full");
}

#[test]
fn files_are_found_by_path_or_by_digest() {
    let entry = file("data/a b.bin", 5);
    let job = file_job("C:\\Games", "https://cdn.test", false, &entry).unwrap();
    assert_eq!(job.destination, "C:\\Games\\data/a b.bin");
    assert_eq!(job.url, "https://cdn.test/data/a%20b.bin");
    let job = file_job("C:\\Games", "https://cdn.test", true, &entry).unwrap();
    assert_eq!(job.destination, "C:\\Games\\data/a b.bin");
    assert_eq!(job.url, "https://cdn.test/digest-of-data/a%20b.bin");
    let error = file_job("C:\\Games", "nowhere", true, &entry).unwrap_err();
    assert!(matches!(error, InstallError::InvalidUrl(_)));
    let error = file_job("C:\\Games", "nowhere", true, &file("C:x", 1)).unwrap_err();
    assert!(matches!(error, InstallError::UnsafePath));
}

#[test]
fn plain_prerequisite_is_run() {
    let entry = prerequisite("Runtime", "vc.exe", "  /quiet\t/norestart ");
    let lines = run_prerequisite(&entry, "C:\\p\\vc.exe", "");
    assert_eq!(lines.len(), 1);
    assert_eq!(lines[0].program, "C:\\p\\vc.exe");
    assert_eq!(lines[0].args, ["/quiet", "/norestart"]);
}

#[test]
fn package_is_handed_to_the_installer() {
    let entry = prerequisite("Runtime", "vc.MSI", "/qn");
    let lines = run_prerequisite(&entry, "C:\\p\\vc.MSI", "");
    assert_eq!(lines.len(), 1);
    assert_eq!(lines[0].program, "msiexec.exe");
    assert_eq!(lines[0].args, ["/i", "C:\\p\\vc.MSI", "/qn"]);
}

#[test]
fn unpacked_prerequisite_is_run_next() {
    let mut entry = prerequisite("DirectX", "dx.msi", "/Q /T:{extract} {extract}{extract}");
    entry.extracted = Some(ExtractedPrerequisite {
        exe: "DXSETUP.exe".to_string(),
        args: "/silent {extract}".to_string(),
    });
    let lines = run_prerequisite(&entry, "C:\\p\\dx.msi", "C:\\t");
    assert_eq!(lines.len(), 2);
    assert_eq!(lines[0].program, "C:\\p\\dx.msi");
    assert_eq!(lines[0].args, ["/Q", "/T:C:\\t", "C:\\tC:\\t"]);
    assert_eq!(lines[1].program, "C:\\t\\DXSETUP.exe");
    assert_eq!(lines[1].args, ["/silent", "{extract}"]);
    let line = prerequisite_call(&entry, "C:\\p\\dx.msi", "C:\\t", 1);
    assert_eq!(line.program, "C:\\t\\DXSETUP.exe");
    let line = prerequisite_call(&entry, "C:\\p\\dx.msi", "C:\\t", 0);
    assert_eq!(line.program, "C:\\p\\dx.msi");
}

#[test]
fn failed_programs_are_reported() {
    assert!(ensure_success(true, "exit code: 0".to_string(), "Runtime").is_ok());
    let error = ensure_success(false, "exit code: 1603".to_string(), "Runtime").unwrap_err();
    assert_eq!(error.message(), "Runtime failed with exit code: 1603");
}

#[test]
fn folders_of_prerequisites() {
    assert_eq!(prerequisite_folder("C:\\Games"), "C:\\Games\\.preserve\\prerequisites");
    assert_eq!(folder_to_unpack_to("C:\\Games", "x"), "C:\\Games\\.preserve\\prereq-x");
}

fn identifier_of(event: InstallEvent) -> String {
    match event {
        InstallEvent::PrerequisiteFetched { result: Ok(()), identifier } => identifier,
        _ => panic!("another event"),
    }
}

#[test]
fn folders_to_unpack_to_have_names_of_their_own() {
    let identifier = identifier_of(prerequisite_fetched(Ok(())));
    assert_ne!(identifier, identifier_of(prerequisite_fetched(Ok(()))));
    assert_eq!(identifier.len(), 36);
    for (i, c) in identifier.chars().enumerate() {
        if [8, 13, 18, 23].contains(&i) {
            assert_eq!(c, '-');
        } else {
            assert!(c.is_ascii_digit() || ('a'..='f').contains(&c));
        }
    }
    assert_eq!(identifier.as_bytes()[14], b'4');
    assert!(b"89ab".contains(&identifier.as_bytes()[19]));
}

#[test]
fn reports_move_forward() {
    let plan = plan(vec![file("a", 100)], vec![prerequisite("Runtime", "vc.exe", "")]);
    let mut installation = Installation::new(plan, "C:\\Games");
    let mut reports = vec![preparing()];
    for event in [
        InstallEvent::FileDue { cancelled: false },
        InstallEvent::Tick { now: 0, cancelled: false },
        InstallEvent::FileAdvanced { before: 0, bytes: 100 },
        InstallEvent::Tick { now: 1, cancelled: false },
        InstallEvent::FileEnded(Ok(())),
        InstallEvent::FilesDone,
        InstallEvent::PrerequisiteDue { cancelled: false },
        prerequisite_fetched(Ok(())),
        ended(true),
        InstallEvent::PrerequisiteDue { cancelled: false },
        InstallEvent::Recorded(Ok(())),
    ] {
        reports.extend(install(&mut installation, event).0);
    }
    let percents: Vec<u8> = reports.iter().map(|report| report.percent).collect();
    assert_eq!(percents, [0, 0, 94, 95, 97, 100]);
}
