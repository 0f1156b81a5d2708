use preserve::errors::InstallError;
use preserve::path::{is_installer_package, join_path, partial_path, safe_join};

#[test]
fn rejects_manifest_path_traversal() {
    assert!(safe_join("C:\\Games", "..\\escape.exe").is_err());
    assert!(safe_join("C:\\Games", "C:\\Windows\\bad.exe").is_err());
    assert!(safe_join("C:\\Games", "data\\game.bin").is_ok());
}

fn joined(root: &str, relative: &str) -> String {
    safe_join(root, relative).unwrap()
}

#[test]
fn places_files_below_their_folder() {
    assert_eq!(joined("C:\\Games", "data\\game.bin"), "C:\\Games\\data\\game.bin");
    assert_eq!(joined("C:\\Games", "data/game.bin"), "C:\\Games\\data/game.bin");
    assert_eq!(joined("C:\\Games\\", "game.bin"), "C:\\Games\\game.bin");
    assert_eq!(joined("C:/Games/", "game.bin"), "C:/Games/game.bin");
    assert_eq!(joined("C:\\Games", ".\\game.bin"), "C:\\Games\\.\\game.bin");
    assert_eq!(joined("C:\\Games", "a..b\\...\\c"), "C:\\Games\\a..b\\...\\c");
    assert_eq!(joined("C:\\Games", ""), "C:\\Games\\");
    assert_eq!(joined("C:", "game.bin"), "C:game.bin");
    assert_eq!(joined("", "game.bin"), "game.bin");
}

#[test]
fn verbatim_folders_hold_plain_segments() {
    assert_eq!(joined("\\\\?\\C:\\Games", "a/./b"), "\\\\?\\C:\\Games\\a\\b");
    assert_eq!(joined("\\\\?\\C:\\Games", "."), "\\\\?\\C:\\Games");
    assert_eq!(joined("\\\\?\\C:\\", "a"), "\\\\?\\C:\\a");
    assert_eq!(joined("\\\\?\\C:\\", "."), "\\\\?\\C:\\");
    assert_eq!(joined("\\\\?\\C:", "."), "\\\\?\\C:");
    assert_eq!(joined("\\\\?\\C:", "a"), "\\\\?\\C:\\a");
    assert_eq!(joined("\\\\?\\C:\\\\Games\\\\", "a"), "\\\\?\\C:\\Games\\a");
    assert_eq!(joined("\\\\?\\C:\\Games\\", ""), "\\\\?\\C:\\Games\\");
    assert_eq!(joined("\\\\?\\C:\\a/b\\.", "c"), "\\\\?\\C:\\a/b\\.\\c");
    assert_eq!(joined("\\\\?\\C:/a", "c"), "\\\\?\\C:\\a\\c");
    assert_eq!(
        joined("\\\\?\\UNC\\server\\share\\x", "a"),
        "\\\\?\\UNC\\server\\share\\x\\a"
    );
}

#[test]
fn verbatim_folders_know_no_parents() {
    let root = "\\\\?\\C:\\Games";
    assert_eq!(join_path(root, "a\\..\\b"), "\\\\?\\C:\\Games\\b");
    assert_eq!(join_path(root, ".."), "\\\\?\\C:\\");
    assert_eq!(join_path(root, "..\\..\\b"), "\\\\?\\C:\\b");
    assert_eq!(join_path(root, "/b/c"), "\\\\?\\C:\\b\\c");
    assert_eq!(join_path(root, "D:\\x"), "D:\\x");
}

#[test]
fn paths_with_a_start_of_their_own_take_the_place() {
    assert_eq!(join_path("C:\\Games", "D:\\x"), "D:\\x");
    assert_eq!(join_path("C:\\Games", "D:x"), "D:x");
    assert_eq!(join_path("C:\\Games", "\\\\server\\share\\x"), "\\\\server\\share\\x");
    assert_eq!(join_path("C:\\Games", "\\\\.\\COM1"), "\\\\.\\COM1");
    assert_eq!(join_path("C:\\Games", "\\x"), "C:\\x");
    assert_eq!(join_path("\\\\server\\share\\Games", "/x"), "\\\\server\\share/x");
    assert_eq!(join_path("Games", "/x"), "/x");
    assert_eq!(join_path("\\\\server\\share", "x"), "\\\\server\\share\\x");
}

#[test]
fn refuses_what_leads_out_of_the_folder() {
    for relative in [
        "..",
        "../x",
        "a/../../x",
        "a\\..\\x",
        "/x",
        "\\x",
        "\\\\server\\share\\x",
        "C:x",
        "c:\\x",
        "a/..",
    ] {
        assert!(matches!(safe_join("C:\\Games", relative), Err(InstallError::UnsafePath)));
    }
    assert_eq!(
        safe_join("C:\\Games", "..").unwrap_err().message(),
        "Manifest contains an unsafe path"
    );
}

#[test]
fn joining_makes_no_test() {
    assert_eq!(join_path("C:\\Games", ".."), "C:\\Games\\..");
}

#[test]
fn partial_files_keep_the_extension() {
    assert_eq!(partial_path("C:\\Games\\game.bin"), "C:\\Games\\game.bin.preserve-part");
    assert_eq!(partial_path("C:\\Games\\game"), "C:\\Games\\game.preserve-part");
    assert_eq!(partial_path("C:\\Games\\.config"), "C:\\Games\\.config.preserve-part");
    assert_eq!(partial_path("C:\\Games\\a.tar.gz"), "C:\\Games\\a.tar.gz.preserve-part");
    assert_eq!(partial_path("C:\\Games\\game.bin\\"), "C:\\Games\\game.bin.preserve-part");
    assert_eq!(partial_path("C:\\"), "C:\\");
    assert_eq!(partial_path("C:\\Games\\.."), "C:\\Games\\..");
    assert_eq!(partial_path("C:\\Games\\game.bin\\.\\"), "C:\\Games\\game.bin.preserve-part");
    assert_eq!(partial_path("C:game.bin"), "C:game.bin.preserve-part");
    assert_eq!(partial_path("C:"), "C:");
}

#[test]
fn shares_and_devices_are_no_names() {
    for path in [
        "\\\\server\\share",
        "\\\\server\\share\\",
        "//server/share.msi",
        "\\\\?\\C:",
        "\\\\?\\C:\\",
        "\\\\?\\C:/",
        "\\\\?\\UNC\\server\\share.msi",
        "\\\\?\\device.msi",
        "\\\\.\\device.msi",
    ] {
        assert_eq!(partial_path(path), path);
        assert!(!is_installer_package(path));
    }
    assert_eq!(partial_path("\\\\server\\share\\x"), "\\\\server\\share\\x.preserve-part");
    assert!(is_installer_package("\\\\server\\share\\x.msi"));
    assert_eq!(partial_path("\\\\server\\"), "\\\\server.preserve-part");
    assert_eq!(partial_path("\\\\?\\C:\\x\\."), "\\\\?\\C:\\x\\.");
    assert_eq!(partial_path("\\\\?\\C:/b"), "\\\\?\\C:/b.preserve-part");
    assert_eq!(partial_path("\\\\?\\C:\\a/b"), "\\\\?\\C:\\a/b.preserve-part");
}

#[test]
fn partial_files_stay_in_their_folder() {
    for root in ["C:\\Games", "C:\\", "\\\\?\\C:\\Games", "\\\\server\\share\\Games"] {
        for relative in ["game.bin", "data\\game.bin\\", "data/game.bin/."] {
            let partial = partial_path(&joined(root, relative));
            assert!(partial.starts_with(root));
            assert!(partial.ends_with("game.bin.preserve-part"));
        }
    }
}

#[test]
fn recognizes_installer_packages() {
    assert!(is_installer_package("C:\\x\\setup.msi"));
    assert!(is_installer_package("C:\\x\\SETUP.MsI"));
    assert!(!is_installer_package("C:\\x\\setup.exe"));
    assert!(!is_installer_package("C:\\x\\msi"));
    assert!(!is_installer_package("C:\\x\\.msi"));
    assert!(!is_installer_package("C:\\x.msi\\setup"));
    assert!(!is_installer_package("C:\\x\\setup.msi.exe"));
}
