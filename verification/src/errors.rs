//! Why a request or an installation fails.

use crate::text::joined;
use vstd::prelude::*;

verus! {

/// Why a request or an installation fails.
#[derive(Debug)]
pub enum InstallError {
    /// The user asked the installation to stop.
    Cancelled,
    /// A manifest path leads out of its folder.
    UnsafePath,
    /// A download address cannot be parsed; the parser's words.
    InvalidUrl(String),
    /// A download origin that has no path to extend.
    InvalidOrigin,
    /// The server refused a file request; its status line.
    Refused(String),
    /// The server ignored the range of a resumed request for the file.
    NotResumable(String),
    /// More bytes came than the manifest gives for the file.
    TooLarge(String),
    /// The connection broke too often during the file.
    Disconnected(String),
    /// The server kept ending the file too early.
    EndedEarly(String),
    /// The file's digest is not the one in the manifest.
    Corrupt(String),
    /// A prerequisite's installer failed: its name and its exit status.
    Prerequisite(String, String),
    /// The catalog request was refused.
    CatalogUnavailable,
    /// The request for a session did not reach the server.
    SessionUnreachable,
    /// The request for a session was refused.
    SessionRefused,
    /// The request for a download plan did not reach the server.
    PlanUnreachable,
    /// The request for a download plan was refused.
    PlanRefused,
    /// The installation index holds something else than an object.
    IndexNotAnObject,
    /// Any other failure, in its own words.
    Other(String),
}

impl InstallError {
    /// What the user reads.
    pub open spec fn text(self) -> Seq<char> {
        match self {
            InstallError::Cancelled => "Installation cancelled"@,
            InstallError::UnsafePath => "Manifest contains an unsafe path"@,
            InstallError::InvalidUrl(words) => words@,
            InstallError::InvalidOrigin => "Invalid download origin"@,
            InstallError::Refused(status) => "Download returned "@ + status@,
            InstallError::NotResumable(path) => "Download server does not support resuming "@
                + path@,
            InstallError::TooLarge(path) => "Download exceeded the expected size for "@ + path@,
            InstallError::Disconnected(path) => "Download repeatedly disconnected for "@ + path@,
            InstallError::EndedEarly(path) => "Download ended early for "@ + path@,
            InstallError::Corrupt(path) => "Integrity check failed for "@ + path@,
            InstallError::Prerequisite(name, status) => name@ + " failed with "@ + status@,
            InstallError::CatalogUnavailable => "Catalog is unavailable"@,
            InstallError::SessionUnreachable => "Could not authenticate this device"@,
            InstallError::SessionRefused => "This device could not be authenticated"@,
            InstallError::PlanUnreachable => "Could not create a download plan"@,
            InstallError::PlanRefused => "This game is not available right now"@,
            InstallError::IndexNotAnObject => "The installation index is not a JSON object"@,
            InstallError::Other(words) => words@,
        }
    }

    /// What the user reads.
    pub fn message(&self) -> (r: String)
        ensures
            r@ == self.text(),
    {
        match self {
            InstallError::Cancelled => "Installation cancelled".to_owned(),
            InstallError::UnsafePath => "Manifest contains an unsafe path".to_owned(),
            InstallError::InvalidUrl(words) => words.clone(),
            InstallError::InvalidOrigin => "Invalid download origin".to_owned(),
            InstallError::Refused(status) => joined("Download returned ", status.as_str()),
            InstallError::NotResumable(path) => joined(
                "Download server does not support resuming ",
                path.as_str(),
            ),
            InstallError::TooLarge(path) => joined(
                "Download exceeded the expected size for ",
                path.as_str(),
            ),
            InstallError::Disconnected(path) => joined(
                "Download repeatedly disconnected for ",
                path.as_str(),
            ),
            InstallError::EndedEarly(path) => joined("Download ended early for ", path.as_str()),
            InstallError::Corrupt(path) => joined("Integrity check failed for ", path.as_str()),
            InstallError::Prerequisite(name, status) => {
                let head = joined(name.as_str(), " failed with ");
                joined(head.as_str(), status.as_str())
            },
            InstallError::CatalogUnavailable => "Catalog is unavailable".to_owned(),
            InstallError::SessionUnreachable => "Could not authenticate this device".to_owned(),
            InstallError::SessionRefused => "This device could not be authenticated".to_owned(),
            InstallError::PlanUnreachable => "Could not create a download plan".to_owned(),
            InstallError::PlanRefused => "This game is not available right now".to_owned(),
            InstallError::IndexNotAnObject => "The installation index is not a JSON object".to_owned(),
            InstallError::Other(words) => words.clone(),
        }
    }
}

/// A failure that concerns a file, a program or a reply names it, after or before words that differ
/// from those of every other failure; a failure in the words of another is told in those words.
pub proof fn law_failures_are_told(words: String, status: String)
    ensures
        InstallError::InvalidUrl(words).text() == words@,
        InstallError::Other(words).text() == words@,
        InstallError::Refused(words).text() == "Download returned "@ + words@,
        InstallError::NotResumable(words).text() == "Download server does not support resuming "@
            + words@,
        InstallError::TooLarge(words).text() == "Download exceeded the expected size for "@ + words@,
        InstallError::Disconnected(words).text() == "Download repeatedly disconnected for "@
            + words@,
        InstallError::EndedEarly(words).text() == "Download ended early for "@ + words@,
        InstallError::Corrupt(words).text() == "Integrity check failed for "@ + words@,
        InstallError::Prerequisite(words, status).text() == words@ + " failed with "@ + status@,
        InstallError::Cancelled.text() == "Installation cancelled"@,
        InstallError::UnsafePath.text() == "Manifest contains an unsafe path"@,
        InstallError::InvalidOrigin.text() == "Invalid download origin"@,
        InstallError::CatalogUnavailable.text() == "Catalog is unavailable"@,
        InstallError::SessionUnreachable.text() == "Could not authenticate this device"@,
        InstallError::SessionRefused.text() == "This device could not be authenticated"@,
        InstallError::PlanUnreachable.text() == "Could not create a download plan"@,
        InstallError::PlanRefused.text() == "This game is not available right now"@,
        InstallError::IndexNotAnObject.text() == "The installation index is not a JSON object"@,
{
}

} // verus!
