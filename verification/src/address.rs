//! The addresses that files are downloaded from.

use crate::errors::InstallError;
use crate::models::ManifestFile;
use crate::text::{
    chars_of, joined, pieces, split, texts, trim_trailing_slashes, without_trailing_slashes,
    Separator,
};
use vstd::prelude::*;

verus! {

broadcast use vstd::string::group_string_axioms;

/// The longest origin, in characters, that addresses are formed from.
pub const LONGEST_ORIGIN: usize = 0x100_0000;

/// The longest object key, in characters, that addresses are formed from.
pub const LONGEST_KEY: usize = 0x800_0000;

/// What the `url` crate makes of a base address and path segments to append to it: the address,
/// or nothing for a base that has no path to append to, or the words with which it rejects the
/// base.
pub uninterp spec fn extended_url(base: Seq<char>, segments: Seq<Seq<char>>) -> Result<
    Option<Seq<char>>,
    Seq<char>,
>;

/// The characters of all texts of a list.
pub open spec fn total_length(list: Seq<Seq<char>>) -> nat
    decreases list.len(),
{
    if list.len() == 0 {
        0
    } else {
        total_length(list.drop_last()) + list.last().len()
    }
}

/// `Url::parse` on the base, then `Url::path_segments_mut`, `PathSegmentsMut::pop_if_empty` and
/// `PathSegmentsMut::extend` with the segments, and the text of the address. The crate keeps
/// positions in 32 bits and panics beyond them; every character takes up to twelve of them once
/// it is encoded.
#[verifier::external_body]
fn extend_url(base: &str, segments: &Vec<String>) -> (r: Result<Option<String>, String>)
    requires
        base@.len() <= LONGEST_ORIGIN + 1,
        segments@.len() + total_length(texts(segments@)) <= LONGEST_KEY + 1,
    ensures
        match r {
            Ok(Some(url)) => extended_url(base@, texts(segments@)) == Ok::<
                Option<Seq<char>>,
                Seq<char>,
            >(Some(url@)),
            Ok(None) => extended_url(base@, texts(segments@)) == Ok::<Option<Seq<char>>, Seq<char>>(
                None,
            ),
            Err(words) => extended_url(base@, texts(segments@)) == Err::<
                Option<Seq<char>>,
                Seq<char>,
            >(words@),
        },
{
    let mut url = url::Url::parse(base).map_err(|error| error.to_string())?;
    match url.path_segments_mut() {
        Ok(mut path) => path.pop_if_empty().extend(segments),
        Err(()) => return Ok(None),
    };
    Ok(Some(url.into()))
}

/// The base address and the path segments for an object of an origin.
pub fn address_parts(origin: &str, key: &str) -> (r: (String, Vec<String>))
    ensures
        r.0@ == without_trailing_slashes(origin@) + "/"@,
        texts(r.1@) == pieces(key@, Separator::Slash),
{
    (joined(trim_trailing_slashes(origin).as_str(), "/"), split(key, Separator::Slash))
}

/// The address that was formed, or why none was.
pub fn accept_address(formed: Result<Option<String>, String>) -> (r: Result<String, InstallError>)
    ensures
        match formed {
            Ok(Some(url)) => r == Ok::<String, InstallError>(url),
            Ok(None) => r == Err::<String, InstallError>(InstallError::InvalidOrigin),
            Err(words) => r == Err::<String, InstallError>(InstallError::InvalidUrl(words)),
        },
{
    match formed {
        Ok(Some(url)) => Ok(url),
        Ok(None) => Err(InstallError::InvalidOrigin),
        Err(words) => Err(InstallError::InvalidUrl(words)),
    }
}

/// What the `url` crate makes of an origin and an object key.
pub open spec fn formed_address(origin: Seq<char>, key: Seq<char>) -> Result<
    Option<Seq<char>>,
    Seq<char>,
> {
    extended_url(without_trailing_slashes(origin) + "/"@, pieces(key, Separator::Slash))
}

/// Whether `r` is the address for an object, or the reason why there is none.
pub open spec fn is_address(
    r: Result<String, InstallError>,
    origin: Seq<char>,
    key: Seq<char>,
) -> bool {
    match formed_address(origin, key) {
        Ok(Some(url)) => r matches Ok(text) && text@ == url,
        Ok(None) => r matches Err(error) && error is InvalidOrigin,
        Err(words) => r matches Err(InstallError::InvalidUrl(text)) && text@ == words,
    }
}

proof fn lemma_pieces_total(text: Seq<char>, separator: Separator)
    ensures
        pieces(text, separator).len() >= 1,
        pieces(text, separator).len() + total_length(pieces(text, separator)) == text.len() + 1,
    decreases text.len(),
{
    let list = pieces(text, separator);
    if text.len() == 0 {
        assert(total_length(list.drop_last()) == 0);
    } else {
        lemma_pieces_total(text.drop_last(), separator);
        let before = pieces(text.drop_last(), separator);
        if separator.divides(text.last()) {
            assert(list.drop_last() =~= before);
        } else {
            assert(list.drop_last() =~= before.drop_last());
        }
    }
}

proof fn lemma_trimmed_is_shorter(text: Seq<char>)
    ensures
        without_trailing_slashes(text).len() <= text.len(),
    decreases text.len(),
{
    if text.len() > 0 && text.last() == '/' {
        lemma_trimmed_is_shorter(text.drop_last());
    }
}

/// The address of an object of an origin: the origin's own path, and after it the key, each
/// piece between its slashes encoded.
pub fn asset_url(base: &str, path: &str) -> (r: Result<String, InstallError>)
    requires
        base@.len() <= LONGEST_ORIGIN,
        path@.len() <= LONGEST_KEY,
    ensures
        is_address(r, base@, path@),
{
    let (start, segments) = address_parts(base, path);
    proof {
        lemma_pieces_total(path@, Separator::Slash);
        lemma_trimmed_is_shorter(base@);
        reveal_strlit("/");
    }
    accept_address(extend_url(start.as_str(), &segments))
}

proof fn lemma_slashes_are_trimmed(origin: Seq<char>, slashes: Seq<char>)
    requires
        forall|i: int| 0 <= i < slashes.len() ==> slashes[i] == '/',
    ensures
        without_trailing_slashes(origin + slashes) == without_trailing_slashes(origin),
    decreases slashes.len(),
{
    let longer = origin + slashes;
    if slashes.len() == 0 {
        assert(longer =~= origin);
    } else {
        assert(longer.last() == '/');
        assert(longer.drop_last() =~= origin + slashes.drop_last());
        lemma_slashes_are_trimmed(origin, slashes.drop_last());
    }
}

/// Slashes at the end of an origin never change an address: none is doubled, and none is missing.
pub proof fn law_trailing_slashes_do_not_matter(
    r: Result<String, InstallError>,
    origin: Seq<char>,
    slashes: Seq<char>,
    key: Seq<char>,
)
    requires
        forall|i: int| 0 <= i < slashes.len() ==> slashes[i] == '/',
    ensures
        formed_address(origin + slashes, key) == formed_address(origin, key),
        is_address(r, origin + slashes, key) == is_address(r, origin, key),
{
    lemma_slashes_are_trimmed(origin, slashes);
}

/// The key under which a file is stored: its digest, or its path.
pub open spec fn object_key(content_addressed: bool, file: ManifestFile) -> Seq<char> {
    if content_addressed {
        file.sha256@
    } else {
        file.path@
    }
}

/// Whether a file's key is short enough for an address.
pub open spec fn key_fits(file: ManifestFile) -> bool {
    file.path@.len() <= LONGEST_KEY && file.sha256@.len() <= LONGEST_KEY
}

/// Whether a file's key is short enough for an address.
pub fn fits(file: &ManifestFile) -> (r: bool)
    ensures
        r == key_fits(*file),
{
    chars_of(file.path.as_str()).len() <= LONGEST_KEY && chars_of(file.sha256.as_str()).len()
        <= LONGEST_KEY
}

/// Whether an origin is short enough for an address.
pub fn origin_fits(origin: &str) -> (r: bool)
    ensures
        r == (origin@.len() <= LONGEST_ORIGIN),
{
    chars_of(origin).len() <= LONGEST_ORIGIN
}

/// What an address is formed from: the origin with one slash after it, and each piece of the key
/// between its slashes. Files are stored under their digests or under their paths.
pub proof fn law_address_is_formed_from_origin_and_key(
    origin: Seq<char>,
    content_addressed: bool,
    file: ManifestFile,
    r: Result<String, InstallError>,
)
    requires
        origin.len() > 0 ==> origin.last() != '/',
    ensures
        ({
            let key = if content_addressed {
                file.sha256@
            } else {
                file.path@
            };
            let formed = extended_url(origin.push('/'), pieces(key, Separator::Slash));
            &&& object_key(content_addressed, file) == key
            &&& formed_address(origin, key) == formed
            &&& is_address(r, origin, key) <==> match r {
                Ok(url) => formed == Ok::<Option<Seq<char>>, Seq<char>>(Some(url@)),
                Err(InstallError::InvalidOrigin) => formed == Ok::<Option<Seq<char>>, Seq<char>>(
                    None,
                ),
                Err(InstallError::InvalidUrl(words)) => formed == Err::<
                    Option<Seq<char>>,
                    Seq<char>,
                >(words@),
                Err(_) => false,
            }
        }),
{
    reveal_strlit("/");
    assert(origin + "/"@ =~= origin.push('/'));
}

/// An address can be formed from any origin of up to sixteen million characters, and any key of up
/// to eight times as many.
pub proof fn law_addresses_can_be_long(file: ManifestFile)
    ensures
        LONGEST_ORIGIN == 16 * 1024 * 1024,
        LONGEST_KEY == 8 * LONGEST_ORIGIN,
        key_fits(file) <==> file.path@.len() <= LONGEST_KEY && file.sha256@.len() <= LONGEST_KEY,
{
}

} // verus!
