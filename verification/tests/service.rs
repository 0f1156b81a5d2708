use preserve::address::{accept_address, address_parts, asset_url, fits, origin_fits};
use preserve::api::{
    device_exchange, device_id, prove_device, succeeded, Api, CatalogAction, PlanAction, PlanEvent,
    Reply,
};
use preserve::digest::{digest_of_text, ContentHash};
use preserve::errors::InstallError;
use preserve::models::{ManifestFile, SessionResponse};
use sha2::Digest;

fn sha256_hex(text: &str) -> String {
    hex::encode(sha2::Sha256::digest(text.as_bytes()))
}

#[test]
fn encodes_asset_paths() {
    let url = asset_url("https://cdn.example.test/files", "folder/a file.bin").unwrap();
    assert_eq!(
        url.as_str(),
        "https://cdn.example.test/files/folder/a%20file.bin"
    );
}

#[test]
fn addresses_append_to_the_origin() {
    let address = |base: &str, path: &str| asset_url(base, path).unwrap();
    assert_eq!(address("https://a.test", "x"), "https://a.test/x");
    assert_eq!(address("https://a.test///", "x"), "https://a.test/x");
    assert_eq!(address("https://a.test/f/", "x/y"), "https://a.test/f/x/y");
    assert_eq!(address("https://a.test/f", "x//y"), "https://a.test/f/x//y");
    assert_eq!(address("https://a.test/f", "../x"), "https://a.test/f/x");
    assert_eq!(address("https://a.test/f", "100%/a?b#c"), "https://a.test/f/100%25/a%3Fb%23c");
    assert_eq!(address("https://a.test/f", "ü"), "https://a.test/f/%C3%BC");
}

#[test]
fn addresses_that_cannot_be_formed() {
    let error = asset_url("not an address", "x").unwrap_err();
    assert!(matches!(error, InstallError::InvalidUrl(_)));
    assert_eq!(error.message(), "relative URL without a base");
    let error = asset_url("mailto:someone", "x").unwrap_err();
    assert!(matches!(error, InstallError::InvalidOrigin));
    assert_eq!(error.message(), "Invalid download origin");
}

#[test]
fn parts_of_an_address() {
    let (base, segments) = address_parts("https://a.test/f//", "x//y z");
    assert_eq!(base, "https://a.test/f/");
    assert_eq!(segments, ["x", "", "y z"]);
    let (base, segments) = address_parts("", "");
    assert_eq!(base, "/");
    assert_eq!(segments, [""]);
}

#[test]
fn formed_addresses_are_accepted() {
    assert_eq!(accept_address(Ok(Some("https://a.test/".to_string()))).unwrap(), "https://a.test/");
    assert!(matches!(accept_address(Ok(None)), Err(InstallError::InvalidOrigin)));
    let error = accept_address(Err("why".to_string())).unwrap_err();
    assert_eq!(error.message(), "why");
}

#[test]
fn short_keys_and_origins_fit() {
    let file = ManifestFile { path: "a".to_string(), sha256: "b".to_string(), size: 1 };
    assert!(fits(&file));
    assert!(origin_fits("https://a.test"));
}

#[test]
fn digests_of_known_texts() {
    assert_eq!(
        digest_of_text("abc"),
        "ba7816bf8f01cfea414140de5dae2223b00361a396177a9cb410ff61f20015ad"
    );
    assert_eq!(
        digest_of_text(""),
        "e3b0c44298fc1c149afbf4c8996fb92427ae41e4649b934ca495991b7852b855"
    );
    assert_eq!(digest_of_text("größe"), sha256_hex("größe"));
}

#[test]
fn content_is_recognized_by_its_digest() {
    let expected = "BA7816BF8F01CFEA414140DE5DAE2223B00361A396177A9CB410FF61F20015AD";
    let mut whole = ContentHash::new();
    whole.update(b"abc");
    assert!(whole.matches(expected));
    let mut parts = ContentHash::new();
    parts.update(b"a");
    parts.update(b"");
    parts.update(b"bc");
    assert!(parts.matches(expected));
    let mut other = ContentHash::new();
    other.update(b"abd");
    assert!(!other.matches(expected));
    assert!(!ContentHash::new().matches(expected));
    assert!(!ContentHash::new().matches(""));
    let mut counted = ContentHash::new();
    assert!(counted.has_length(0));
    counted.update(b"abc");
    assert!(counted.has_length(3));
    assert!(!counted.has_length(2));
}

#[test]
fn devices_do_not_disclose_their_names() {
    assert_eq!(device_id(Some("workstation")), sha256_hex("preserve:v1:workstation"));
    assert_eq!(device_id(None), sha256_hex("preserve:v1:preserve"));
    assert_eq!(device_id(None).len(), 64);
}

#[test]
fn proofs_bind_device_and_nonce() {
    let proof = prove_device("device".to_string(), "nonce".to_string());
    assert_eq!(proof.proof, sha256_hex("device:nonce"));
    let message = proof.exchange();
    assert_eq!(message.hwid, "device");
    assert_eq!(message.nonce, "nonce");
    assert_eq!(message.proof, sha256_hex("device:nonce"));
}

#[test]
fn nonces_are_random_identifiers() {
    let first = device_exchange("device".to_string());
    let second = device_exchange("device".to_string());
    assert_ne!(first.nonce, second.nonce);
    assert_eq!(first.nonce.len(), 32);
    assert!(first.nonce.chars().all(|c| c.is_ascii_digit() || ('a'..='f').contains(&c)));
    assert_eq!(first.nonce.as_bytes()[12], b'4');
    assert!(b"89ab".contains(&first.nonce.as_bytes()[16]));
    assert_eq!(first.proof, sha256_hex(&format!("device:{}", first.nonce)));
}

#[test]
fn addresses_of_the_service() {
    let api = Api::new("https://preserve.test/api//");
    assert_eq!(api.games_url(), "https://preserve.test/api/v1/games");
    assert_eq!(api.session_url(), "https://preserve.test/api/v1/auth/device");
    assert_eq!(api.download_url("doom"), "https://preserve.test/api/v1/games/doom/download");
}

#[test]
fn statuses_of_success() {
    assert!(!succeeded(199));
    assert!(succeeded(200));
    assert!(succeeded(206));
    assert!(succeeded(299));
    assert!(!succeeded(300));
}

#[test]
fn catalog_replies() {
    let api = Api::new("https://preserve.test");
    assert!(matches!(api.games(Reply::Status(200)), CatalogAction::Read));
    match api.games(Reply::Status(503)) {
        CatalogAction::Fail(error) => assert_eq!(error.message(), "Catalog is unavailable"),
        CatalogAction::Read => panic!("a refused catalog was read"),
    }
    match api.games(Reply::Unreachable("no route".to_string())) {
        CatalogAction::Fail(error) => assert_eq!(error.message(), "no route"),
        CatalogAction::Read => panic!("a missing catalog was read"),
    }
}

fn failure(action: PlanAction) -> String {
    match action {
        PlanAction::Fail(error) => error.message(),
        _ => panic!("no failure"),
    }
}

#[test]
fn plans_need_a_session() {
    let api = Api::new("https://preserve.test");
    match api.download_plan("doom", PlanEvent::Wanted("device".to_string())) {
        PlanAction::RequestSession(url, proof) => {
            assert_eq!(url, "https://preserve.test/v1/auth/device");
            assert_eq!(proof.hwid, "device");
            assert_eq!(proof.proof, sha256_hex(&format!("device:{}", proof.nonce)));
        }
        _ => panic!("no session was requested"),
    }
    assert!(matches!(
        api.download_plan("doom", PlanEvent::SessionReply(Reply::Status(200))),
        PlanAction::ReadSession
    ));
    let session = SessionResponse { access_token: "SECRET-REDACTED".to_string() };
    match api.download_plan("doom", PlanEvent::Session(Ok(session))) {
        PlanAction::RequestPlan(url, token) => {
            assert_eq!(url, "https://preserve.test/v1/games/doom/download");
            assert_eq!(token, "SECRET-REDACTED");
        }
        _ => panic!("no plan was requested"),
    }
    assert!(matches!(
        api.download_plan("doom", PlanEvent::PlanReply(Reply::Status(200))),
        PlanAction::ReadPlan
    ));
}

#[test]
fn plans_that_cannot_be_had() {
    let api = Api::new("https://preserve.test");
    let gone = || Reply::Unreachable("no route".to_string());
    assert_eq!(
        failure(api.download_plan("doom", PlanEvent::SessionReply(gone()))),
        "Could not authenticate this device"
    );
    assert_eq!(
        failure(api.download_plan("doom", PlanEvent::SessionReply(Reply::Status(401)))),
        "This device could not be authenticated"
    );
    assert_eq!(
        failure(api.download_plan("doom", PlanEvent::Session(Err("bad text".to_string())))),
        "bad text"
    );
    assert_eq!(
        failure(api.download_plan("doom", PlanEvent::PlanReply(gone()))),
        "Could not create a download plan"
    );
    assert_eq!(
        failure(api.download_plan("doom", PlanEvent::PlanReply(Reply::Status(404)))),
        "This game is not available right now"
    );
}
