//! The catalog service: its addresses, the proof that a device sends, and what becomes of replies.

use crate::digest::{digest_of_text, digest_text, hex_digit, hex_text, sha256, LONG_TEXT};
use crate::errors::InstallError;
use crate::models::{DeviceExchange, SessionResponse};
use crate::text::{joined, text_view, trim_trailing_slashes, without_trailing_slashes};
use vstd::prelude::*;
use vstd::utf8::encode_utf8;

verus! {

broadcast use vstd::string::group_string_axioms;

/// Whether a status is one of success.
pub open spec fn is_success(status: u16) -> bool {
    200 <= status < 300
}

/// What a device calls itself: a digest that does not disclose the machine's own name.
pub open spec fn device_name(machine: Seq<char>) -> Seq<char> {
    digest_text(encode_utf8("preserve:v1:"@ + machine))
}

/// The proof that goes with a device's name and a nonce.
pub open spec fn exchange_proof(hwid: Seq<char>, nonce: Seq<char>) -> Seq<char> {
    digest_text(encode_utf8(hwid + ":"@ + nonce))
}

/// Whether a text is a random identifier in its short form: 32 lower-case hexadecimal digits, of
/// which the thirteenth gives the version and the seventeenth the variant.
pub open spec fn is_nonce(text: Seq<char>) -> bool {
    &&& text.len() == 32
    &&& forall|i: int|
        0 <= i < 32 ==> exists|value: nat| value < 16 && #[trigger] text[i] == #[trigger] hex_digit(
            value,
        )
    &&& text[12] == '4'
    &&& text[16] == '8' || text[16] == '9' || text[16] == 'a' || text[16] == 'b'
}

/// `Uuid::new_v4` and its `simple` form: a random version 4 identifier. Which one is chance. The
/// call panics where the system has no randomness to give.
#[verifier::external_body]
fn random_nonce() -> (nonce: String)
    ensures
        is_nonce(nonce@),
{
    uuid::Uuid::new_v4().simple().to_string()
}

/// What a device sends to obtain a session.
#[derive(Debug)]
pub struct DeviceProof {
    pub hwid: String,
    pub nonce: String,
    pub proof: String,
}

impl DeviceProof {
    /// The message to send.
    pub fn exchange(&self) -> (r: DeviceExchange<'_>)
        ensures
            r.hwid@ == self.hwid@,
            r.nonce@ == self.nonce@,
            r.proof@ == self.proof@,
    {
        DeviceExchange {
            hwid: self.hwid.as_str(),
            nonce: self.nonce.as_str(),
            proof: self.proof.as_str(),
        }
    }
}

/// The machine's name as the service knows it. A machine without a name is called `preserve`.
pub fn device_id(machine: Option<&str>) -> (id: String)
    requires
        machine matches Some(name) ==> name@.len() < LONG_TEXT / 2,
    ensures
        id@ == device_name(
            match machine {
                Some(name) => name@,
                None => "preserve"@,
            },
        ),
        id@.len() == 64,
{
    let name = match machine {
        Some(name) => name,
        None => "preserve",
    };
    proof {
        reveal_strlit("preserve:v1:");
        reveal_strlit("preserve");
    }
    digest_of_text(joined("preserve:v1:", name).as_str())
}

/// The proof for a device's name and a given nonce.
pub fn prove_device(hwid: String, nonce: String) -> (r: DeviceProof)
    requires
        hwid@.len() + nonce@.len() < LONG_TEXT / 2,
    ensures
        r.hwid == hwid,
        r.nonce == nonce,
        r.proof@ == exchange_proof(hwid@, nonce@),
{
    proof {
        reveal_strlit(":");
    }
    let head = joined(hwid.as_str(), ":");
    let proof_text = digest_of_text(joined(head.as_str(), nonce.as_str()).as_str());
    DeviceProof { hwid, nonce, proof: proof_text }
}

/// The proof for a device's name and a fresh nonce.
pub fn device_exchange(hwid: String) -> (r: DeviceProof)
    requires
        hwid@.len() < LONG_TEXT / 4,
    ensures
        r.hwid == hwid,
        is_nonce(r.nonce@),
        r.proof@ == exchange_proof(hwid@, r.nonce@),
{
    prove_device(hwid, random_nonce())
}

/// The catalog service.
#[derive(Debug)]
pub struct Api {
    base_url: String,
}

/// What came of a request.
pub enum Reply {
    /// It did not reach the server; why.
    Unreachable(String),
    /// The server answered with a status.
    Status(u16),
}

/// What to do next for the catalog.
pub enum CatalogAction {
    /// Read the catalog from the reply.
    Read,
    /// Give up.
    Fail(InstallError),
}

/// What happened on the way to a download plan.
pub enum PlanEvent {
    /// The device of this name wants a plan.
    Wanted(String),
    /// What came of the request for a session.
    SessionReply(Reply),
    /// What the reply to the request for a session holds, or why it cannot be read.
    Session(Result<SessionResponse, String>),
    /// What came of the request for the plan.
    PlanReply(Reply),
}

/// What to do next on the way to a download plan.
pub enum PlanAction {
    /// Send the proof to the address.
    RequestSession(String, DeviceProof),
    /// Read the session from the reply.
    ReadSession,
    /// Ask for the plan at the address, with the token.
    RequestPlan(String, String),
    /// Read the plan from the reply.
    ReadPlan,
    /// Give up.
    Fail(InstallError),
}

impl Api {
    /// The address of the service, without trailing slashes.
    pub closed spec fn address(self) -> Seq<char> {
        self.base_url@
    }

    /// The service at an address.
    pub fn new(base_url: &str) -> (r: Api)
        ensures
            r.address() == without_trailing_slashes(base_url@),
    {
        Api { base_url: trim_trailing_slashes(base_url) }
    }

    /// Where the catalog is.
    pub fn games_url(&self) -> (r: String)
        ensures
            r@ == self.address() + "/v1/games"@,
    {
        joined(self.base_url.as_str(), "/v1/games")
    }

    /// Where a device obtains a session.
    pub fn session_url(&self) -> (r: String)
        ensures
            r@ == self.address() + "/v1/auth/device"@,
    {
        joined(self.base_url.as_str(), "/v1/auth/device")
    }

    /// Where the download plan of a game is.
    pub fn download_url(&self, game_id: &str) -> (r: String)
        ensures
            r@ == self.address() + "/v1/games/"@ + game_id@ + "/download"@,
    {
        let head = joined(self.base_url.as_str(), "/v1/games/");
        let mut r = joined(head.as_str(), game_id);
        r.append("/download");
        r
    }

    /// What to do with the reply to a request for the catalog.
    pub fn games(&self, reply: Reply) -> (action: CatalogAction)
        ensures
            match (reply, action) {
                (Reply::Status(status), CatalogAction::Read) => is_success(status),
                (Reply::Status(status), CatalogAction::Fail(error)) => !is_success(status)
                    && error is CatalogUnavailable,
                (Reply::Unreachable(reason), CatalogAction::Fail(error)) => error
                    == InstallError::Other(reason),
                _ => false,
            },
    {
        match reply {
            Reply::Unreachable(reason) => CatalogAction::Fail(InstallError::Other(reason)),
            Reply::Status(status) => if succeeded(status) {
                CatalogAction::Read
            } else {
                CatalogAction::Fail(InstallError::CatalogUnavailable)
            },
        }
    }

    /// What to do next on the way to the download plan of a game: obtain a session for the
    /// device, and with its token the plan.
    pub fn download_plan(&self, game_id: &str, event: PlanEvent) -> (action: PlanAction)
        requires
            event matches PlanEvent::Wanted(hwid) ==> hwid@.len() < LONG_TEXT / 4,
        ensures
            match (event, action) {
                (PlanEvent::Wanted(hwid), PlanAction::RequestSession(url, sent)) => {
                    &&& url@ == self.address() + "/v1/auth/device"@
                    &&& sent.hwid == hwid
                    &&& is_nonce(sent.nonce@)
                    &&& sent.proof@ == exchange_proof(hwid@, sent.nonce@)
                },
                (PlanEvent::SessionReply(reply), PlanAction::ReadSession) => reply matches Reply::Status(
                    status,
                ) && is_success(status),
                (PlanEvent::SessionReply(reply), PlanAction::Fail(error)) => match reply {
                    Reply::Unreachable(_) => error is SessionUnreachable,
                    Reply::Status(status) => !is_success(status) && error is SessionRefused,
                },
                (PlanEvent::Session(Ok(session)), PlanAction::RequestPlan(url, token)) => {
                    &&& url@ == self.address() + "/v1/games/"@ + game_id@ + "/download"@
                    &&& token == session.access_token
                },
                (PlanEvent::Session(Err(reason)), PlanAction::Fail(error)) => error
                    == InstallError::Other(reason),
                (PlanEvent::PlanReply(reply), PlanAction::ReadPlan) => reply matches Reply::Status(
                    status,
                ) && is_success(status),
                (PlanEvent::PlanReply(reply), PlanAction::Fail(error)) => match reply {
                    Reply::Unreachable(_) => error is PlanUnreachable,
                    Reply::Status(status) => !is_success(status) && error is PlanRefused,
                },
                _ => false,
            },
    {
        match event {
            PlanEvent::Wanted(hwid) => PlanAction::RequestSession(
                self.session_url(),
                device_exchange(hwid),
            ),
            PlanEvent::SessionReply(Reply::Unreachable(_)) => PlanAction::Fail(
                InstallError::SessionUnreachable,
            ),
            PlanEvent::SessionReply(Reply::Status(status)) => if succeeded(status) {
                PlanAction::ReadSession
            } else {
                PlanAction::Fail(InstallError::SessionRefused)
            },
            PlanEvent::Session(Ok(session)) => PlanAction::RequestPlan(
                self.download_url(game_id),
                session.access_token,
            ),
            PlanEvent::Session(Err(reason)) => PlanAction::Fail(InstallError::Other(reason)),
            PlanEvent::PlanReply(Reply::Unreachable(_)) => PlanAction::Fail(
                InstallError::PlanUnreachable,
            ),
            PlanEvent::PlanReply(Reply::Status(status)) => if succeeded(status) {
                PlanAction::ReadPlan
            } else {
                PlanAction::Fail(InstallError::PlanRefused)
            },
        }
    }
}

/// The address of the catalog service: the one that is given when the program is run, or else when
/// it is built, or else its own.
pub open spec fn chosen_address(
    at_run: Option<Seq<char>>,
    at_build: Option<Seq<char>>,
) -> Seq<char> {
    match at_run {
        Some(address) => address,
        None => match at_build {
            Some(address) => address,
            None => "https://preserve.st/api"@,
        },
    }
}

/// The address of the catalog service: the one that is given when the program is run, or else when
/// it is built, or else its own.
pub fn service_address(at_run: Option<&str>, at_build: Option<&str>) -> (r: String)
    ensures
        r@ == chosen_address(text_view(at_run), text_view(at_build)),
{
    match at_run {
        Some(address) => address.to_owned(),
        None => match at_build {
            Some(address) => address.to_owned(),
            None => "https://preserve.st/api".to_owned(),
        },
    }
}

/// Whether a status is one of success.
pub fn succeeded(status: u16) -> (r: bool)
    ensures
        r == is_success(status),
{
    200 <= status && status < 300
}

/// A status is one of success exactly if it is one of the two hundreds.
pub proof fn law_two_hundreds_are_success(status: u16)
    ensures
        is_success(status) <==> status / 100 == 2,
{
}

/// A device is known by a digest that is taken of more than the machine's own name. Its proof is a
/// digest too, of what it is known by and of the nonce, each on its side of a colon.
pub proof fn law_what_a_device_sends(machine: Seq<char>, hwid: Seq<char>, nonce: Seq<char>)
    ensures
        device_name(machine) == hex_text(sha256(encode_utf8("preserve:v1:"@ + machine))),
        exchange_proof(hwid, nonce) == hex_text(sha256(encode_utf8(hwid.push(':') + nonce))),
{
    reveal_strlit(":");
    assert(hwid + ":"@ + nonce =~= hwid.push(':') + nonce);
}

/// An address that is given when the program is run counts before one that is given when it is
/// built, and either before the program's own.
pub proof fn law_given_address_counts(at_run: Seq<char>, at_build: Option<Seq<char>>)
    ensures
        chosen_address(Some(at_run), at_build) == at_run,
        at_build matches Some(address) ==> chosen_address(None, at_build) == address,
        at_build is None ==> chosen_address(None, at_build) == "https://preserve.st/api"@,
{
}

/// A nonce is 32 characters long, and each is a hexadecimal digit in lower case. The thirteenth is
/// that of a random identifier, and the seventeenth has the upper of its four bits set and the next
/// one clear.
pub proof fn law_nonce_is_hexadecimal(nonce: Seq<char>, i: int)
    requires
        is_nonce(nonce),
        0 <= i < nonce.len(),
    ensures
        nonce.len() == 32,
        ('0' <= nonce[i] && nonce[i] <= '9') || ('a' <= nonce[i] && nonce[i] <= 'f'),
        nonce[12] == hex_digit(4),
        exists|value: nat| 8 <= value < 12 && nonce[16] == #[trigger] hex_digit(value),
        nonce[16] == hex_digit(8) || nonce[16] == hex_digit(9) || nonce[16] == hex_digit(10)
            || nonce[16] == hex_digit(11),
{
    let value = choose|value: nat| value < 16 && nonce[i] == #[trigger] hex_digit(value);
    assert(nonce[i] == hex_digit(value));
}

/// Every text of that form can be a nonce.
pub proof fn law_every_such_text_can_be_a_nonce(text: Seq<char>, variant: nat)
    requires
        text.len() == 32,
        forall|i: int|
            0 <= i < 32 ==> ('0' <= #[trigger] text[i] && text[i] <= '9') || ('a' <= text[i]
                && text[i] <= 'f'),
        text[12] == '4',
        8 <= variant < 12,
        text[16] == hex_digit(variant),
    ensures
        is_nonce(text),
{
    assert forall|i: int| 0 <= i < 32 implies exists|value: nat|
        value < 16 && #[trigger] text[i] == #[trigger] hex_digit(value) by {
        let code = text[i] as nat;
        let value: nat = if text[i] <= '9' {
            (code - '0' as nat) as nat
        } else {
            (code - 'a' as nat + 10) as nat
        };
        assert(text[i] == hex_digit(value));
    }
}

} // verus!
