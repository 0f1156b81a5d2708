//! What is recorded of an installation: a file of its own, and an entry in the index of all
//! installed games.

use crate::errors::InstallError;
use crate::json::{
    field, field_mut, fields_of, holds_integers, is_null, is_object, json_bool, json_contents,
    json_integer, json_object, json_text, nests_within, parse_json, parsed_json, pretty_json,
    print_json, Json, DEEPEST,
};
use crate::models::DownloadPlan;
use crate::path::{join_path, joined_path};
use crate::text::joined;
use serde_json::Value;
use vstd::prelude::*;

verus! {

broadcast use vstd::string::group_string_axioms;

/// What is recorded of the installation of a game to a folder.
pub open spec fn marker_json(plan: DownloadPlan, path: Seq<char>) -> Json {
    Json::Object(
        map![
            "schema"@ => Json::Integer(1),
            "id"@ => Json::Text(plan.game.id@),
            "title"@ => Json::Text(plan.game.title@),
            "version"@ => Json::Text(plan.manifest.version@),
            "path"@ => Json::Text(path),
            "executable"@ => Json::Text(joined_path(path, plan.manifest.entry_exe@)),
            "verified"@ => Json::Bool(true),
        ],
    )
}

/// An index of no games.
pub open spec fn empty_index() -> Json {
    Json::Object(map!["schema"@ => Json::Integer(1), "games"@ => Json::Object(Map::empty())])
}

/// The games of an index.
pub open spec fn games_of(fields: Map<Seq<char>, Json>) -> Map<Seq<char>, Json> {
    if fields.contains_key("games"@) {
        match fields["games"@] {
            Json::Object(games) => games,
            _ => Map::empty(),
        }
    } else {
        Map::empty()
    }
}

/// The index once a game is in it, from the index that was found. Where none was, or none that
/// can be read, there is one of no games. There is no index to be had from anything that is
/// neither an object nor null.
pub open spec fn index_after(found: Option<Json>, id: Seq<char>, marker: Json) -> Option<Json> {
    let index = match found {
        Some(index) => index,
        None => empty_index(),
    };
    match fields_of(index) {
        Some(fields) => Some(
            Json::Object(
                fields.insert("schema"@, Json::Integer(1)).insert(
                    "games"@,
                    Json::Object(games_of(fields).insert(id, marker)),
                ),
            ),
        ),
        None => None,
    }
}

/// What a value holds, if there is one.
pub open spec fn held(value: Option<Value>) -> Option<Json> {
    match value {
        Some(value) => Some(json_contents(value)),
        None => None,
    }
}

/// An index of no games.
fn new_index() -> (index: Value)
    ensures
        json_contents(index) == empty_index(),
{
    let mut index = json_object();
    *field_mut(&mut index, "schema") = json_integer(1);
    *field_mut(&mut index, "games") = json_object();
    assert(json_contents(index)->Object_0 =~= empty_index()->Object_0);
    index
}

/// The index once a game is in it, from the index that was found.
pub fn index_with(found: Option<Value>, id: &str, marker: Value) -> (r: Result<Value, InstallError>)
    ensures
        match index_after(held(found), id@, json_contents(marker)) {
            Some(index) => r matches Ok(value) && json_contents(value) == index,
            None => r matches Err(error) && error is IndexNotAnObject,
        },
{
    let mut index = match found {
        Some(index) => index,
        None => new_index(),
    };
    if !is_object(&index) && !is_null(&index) {
        return Err(InstallError::IndexNotAnObject);
    }
    let ghost fields = fields_of(json_contents(index))->Some_0;
    proof {
        reveal_strlit("games");
        reveal_strlit("schema");
        assert("games"@.len() != "schema"@.len());
    }
    let has_games = match field(&index, "games") {
        Some(games) => is_object(games),
        None => false,
    };
    if !has_games {
        *field_mut(&mut index, "games") = json_object();
    }
    *field_mut(&mut index, "schema") = json_integer(1);
    *field_mut(field_mut(&mut index, "games"), id) = marker;
    proof {
        assert(json_contents(index)->Object_0 =~= fields.insert("schema"@, Json::Integer(1)).insert(
            "games"@,
            Json::Object(games_of(fields).insert(id@, json_contents(marker))),
        ));
    }
    Ok(index)
}

/// What is recorded of the installation of a game to a folder.
pub fn marker(plan: &DownloadPlan, path: &str) -> (value: Value)
    ensures
        json_contents(value) == marker_json(*plan, path@),
{
    let executable = join_path(path, plan.manifest.entry_exe.as_str());
    let mut value = json_object();
    *field_mut(&mut value, "schema") = json_integer(1);
    *field_mut(&mut value, "id") = json_text(plan.game.id.as_str());
    *field_mut(&mut value, "title") = json_text(plan.game.title.as_str());
    *field_mut(&mut value, "version") = json_text(plan.manifest.version.as_str());
    *field_mut(&mut value, "path") = json_text(path);
    *field_mut(&mut value, "executable") = json_text(executable.as_str());
    *field_mut(&mut value, "verified") = json_bool(true);
    assert(json_contents(value)->Object_0 =~= marker_json(*plan, path@)->Object_0);
    value
}

/// A deeper bound holds where a lesser one does.
proof fn lemma_bounds_grow(json: Json, depth: nat, deeper: nat)
    requires
        depth <= deeper,
    ensures
        nests_within(json, depth) ==> nests_within(json, deeper),
        holds_integers(json, depth) ==> holds_integers(json, deeper),
    decreases depth,
{
    match json {
        Json::Array(items) => {
            if depth > 0 {
                assert forall|i: int| 0 <= i < items.len() implies (nests_within(
                    #[trigger] items[i],
                    (depth - 1) as nat,
                ) ==> nests_within(items[i], (deeper - 1) as nat)) && (holds_integers(
                    items[i],
                    (depth - 1) as nat,
                ) ==> holds_integers(items[i], (deeper - 1) as nat)) by {
                    lemma_bounds_grow(items[i], (depth - 1) as nat, (deeper - 1) as nat);
                }
            }
        },
        Json::Object(fields) => {
            if depth > 0 {
                assert forall|key: Seq<char>| #[trigger] fields.contains_key(key) implies (
                nests_within(fields[key], (depth - 1) as nat) ==> nests_within(
                    fields[key],
                    (deeper - 1) as nat,
                )) && (holds_integers(fields[key], (depth - 1) as nat) ==> holds_integers(
                    fields[key],
                    (deeper - 1) as nat,
                )) by {
                    lemma_bounds_grow(fields[key], (depth - 1) as nat, (deeper - 1) as nat);
                }
            }
        },
        _ => {},
    }
}

/// What is recorded of an installation is one object of plain values.
proof fn lemma_marker_is_flat(plan: DownloadPlan, path: Seq<char>)
    ensures
        nests_within(marker_json(plan, path), 1),
        holds_integers(marker_json(plan, path), 1),
{
    let fields = marker_json(plan, path)->Object_0;
    assert forall|key: Seq<char>| #[trigger] fields.contains_key(key) implies nests_within(
        fields[key],
        0,
    ) && holds_integers(fields[key], 0) by {}
}

/// The index nests no deeper than the one that was found, and holds no other numbers.
proof fn lemma_index_stays_readable(found: Option<Json>, id: Seq<char>, marker: Json)
    requires
        nests_within(marker, 1),
        holds_integers(marker, 1),
        found matches Some(index) ==> nests_within(index, DEEPEST as nat),
    ensures
        index_after(found, id, marker) matches Some(index) ==> nests_within(index, DEEPEST as nat)
            && ((found matches Some(before) ==> holds_integers(before, DEEPEST as nat))
            ==> holds_integers(index, DEEPEST as nat)),
{
    if let Some(after) = index_after(found, id, marker) {
        let before = match found {
            Some(index) => index,
            None => empty_index(),
        };
        let old_fields = fields_of(before)->Some_0;
        let new_fields = after->Object_0;
        let old_games = games_of(old_fields);
        let new_games = old_games.insert(id, marker);
        let whole = found matches Some(before) ==> holds_integers(before, DEEPEST as nat);
        lemma_bounds_grow(marker, 1, 125);
        assert forall|key: Seq<char>| #[trigger] new_games.contains_key(key) implies nests_within(
            new_games[key],
            125,
        ) && (whole ==> holds_integers(new_games[key], 125)) by {
            if key != id {
                assert(old_fields.contains_key("games"@));
                assert(old_fields["games"@] == Json::Object(old_games));
                assert(nests_within(old_fields["games"@], 126));
                assert(whole ==> holds_integers(old_fields["games"@], 126));
                assert(old_games.contains_key(key));
            }
        }
        assert(nests_within(Json::Object(new_games), 126));
        assert(whole ==> holds_integers(Json::Object(new_games), 126));
        assert forall|key: Seq<char>| #[trigger] new_fields.contains_key(key) implies nests_within(
            new_fields[key],
            126,
        ) && (whole ==> holds_integers(new_fields[key], 126)) by {
            if key != "games"@ && key != "schema"@ {
                assert(old_fields.contains_key(key));
            }
        }
    }
}

/// The file to be written for an installation: its name, and its contents. They are read back as
/// what was recorded.
pub fn write_marker(plan: &DownloadPlan, path: &str) -> (r: Result<
    (String, Vec<u8>),
    InstallError,
>)
    ensures
        r matches Ok((name, bytes)) && name@ == plan.game.id@ + ".json"@ && bytes@ == pretty_json(
            marker_json(*plan, path@),
        ) && parsed_json(bytes@) == Some(marker_json(*plan, path@)),
{
    let value = marker(plan, path);
    proof {
        lemma_marker_is_flat(*plan, path@);
        lemma_bounds_grow(json_contents(value), 1, DEEPEST as nat);
    }
    match print_json(&value) {
        Ok(bytes) => Ok((joined(plan.game.id.as_str(), ".json"), bytes)),
        Err(words) => Err(InstallError::Other(words)),
    }
}

/// The index that was found, from the text of its file, if there is one.
pub open spec fn found_index(file: Option<Seq<u8>>) -> Option<Json> {
    match file {
        Some(bytes) => parsed_json(bytes),
        None => None,
    }
}

/// What a file holds, if it is there.
pub open spec fn text_of_file(file: Option<&[u8]>) -> Option<Seq<u8>> {
    match file {
        Some(bytes) => Some(bytes@),
        None => None,
    }
}

/// Whether no number of the index that was found has a fraction.
pub open spec fn found_integers(file: Option<Seq<u8>>) -> bool {
    found_index(file) matches Some(index) ==> holds_integers(index, DEEPEST as nat)
}

/// Whether an index is read back from its text as it is.
pub open spec fn is_read_back(index: Json) -> bool {
    parsed_json(pretty_json(index)) == Some(index)
}

/// Whether `text` is what is written for the index once a game is in it, from the text that the
/// index had. Unless a number in the index has a fraction, it is read back as the same index.
pub open spec fn is_index_text(
    text: Seq<u8>,
    file: Option<Seq<u8>>,
    id: Seq<char>,
    marker: Json,
) -> bool {
    match index_after(found_index(file), id, marker) {
        Some(index) => text == pretty_json(index) && (found_integers(file) ==> is_read_back(index)),
        None => false,
    }
}

/// The text of the index once an installation is in it, from the text that it had, if it was
/// there. Unless a number in the index has a fraction, it is read back as the same index.
pub fn write_index(plan: &DownloadPlan, path: &str, file: Option<&[u8]>) -> (r: Result<
    Vec<u8>,
    InstallError,
>)
    ensures
        match index_after(
            found_index(text_of_file(file)),
            plan.game.id@,
            marker_json(*plan, path@),
        ) {
            Some(_) => r matches Ok(bytes) && is_index_text(
                bytes@,
                text_of_file(file),
                plan.game.id@,
                marker_json(*plan, path@),
            ),
            None => r matches Err(error) && error is IndexNotAnObject,
        },
{
    let found = match file {
        Some(bytes) => parse_json(bytes),
        None => None,
    };
    let value = marker(plan, path);
    proof {
        lemma_marker_is_flat(*plan, path@);
        lemma_index_stays_readable(
            held(found),
            plan.game.id@,
            json_contents(value),
        );
    }
    match index_with(found, plan.game.id.as_str(), value) {
        Ok(index) => match print_json(&index) {
            Ok(bytes) => Ok(bytes),
            Err(words) => Err(InstallError::Other(words)),
        },
        Err(error) => Err(error),
    }
}

/// A game that was put into the index is found there, under its own name, and the index says
/// which form it has.
pub proof fn law_recorded_game_is_found(found: Option<Json>, id: Seq<char>, marker: Json)
    ensures
        index_after(found, id, marker) matches Some(index) ==> (index matches Json::Object(fields)
            && games_of(fields).contains_key(id) && games_of(fields)[id] == marker
            && fields.contains_key("schema"@) && fields["schema"@] == Json::Integer(1)),
{
    reveal_strlit("games");
    reveal_strlit("schema");
    assert("games"@.len() != "schema"@.len());
}

/// Recording a game leaves every other game of the index, and everything else that it holds, as
/// it was.
pub proof fn law_recording_keeps_the_rest(
    before: Map<Seq<char>, Json>,
    id: Seq<char>,
    marker: Json,
    other: Seq<char>,
    key: Seq<char>,
)
    requires
        other != id,
        key != "games"@,
        key != "schema"@,
    ensures
        index_after(Some(Json::Object(before)), id, marker) matches Some(Json::Object(after)) && {
            &&& games_of(after).contains_key(other) == games_of(before).contains_key(other)
            &&& games_of(before).contains_key(other) ==> games_of(after)[other] == games_of(
                before,
            )[other]
            &&& after.contains_key(key) == before.contains_key(key)
            &&& before.contains_key(key) ==> after[key] == before[key]
        },
{
}

/// Recording the same installation again changes nothing.
pub proof fn law_recording_twice_is_recording_once(
    found: Option<Json>,
    id: Seq<char>,
    marker: Json,
)
    ensures
        index_after(found, id, marker) matches Some(index) ==> index_after(Some(index), id, marker)
            == Some(index),
{
    reveal_strlit("games");
    reveal_strlit("schema");
    assert("games"@.len() != "schema"@.len());
    if let Some(index) = index_after(found, id, marker) {
        let fields = index->Object_0;
        assert(games_of(fields).insert(id, marker) =~= games_of(fields));
        assert(fields.insert("schema"@, Json::Integer(1)).insert(
            "games"@,
            Json::Object(games_of(fields)),
        ) =~= fields);
    }
}

/// The index does not depend on the order in which two games are recorded.
pub proof fn law_order_of_recording_does_not_matter(
    found: Option<Json>,
    first: Seq<char>,
    first_marker: Json,
    second: Seq<char>,
    second_marker: Json,
)
    requires
        first != second,
    ensures
        index_after(found, first, first_marker) matches Some(one) ==> (index_after(
            found,
            second,
            second_marker,
        ) matches Some(other) && index_after(Some(one), second, second_marker) == index_after(
            Some(other),
            first,
            first_marker,
        )),
{
    reveal_strlit("games");
    reveal_strlit("schema");
    assert("games"@.len() != "schema"@.len());
    if let Some(one) = index_after(found, first, first_marker) {
        let other = index_after(found, second, second_marker)->Some_0;
        let here = index_after(Some(one), second, second_marker)->Some_0;
        let there = index_after(Some(other), first, first_marker)->Some_0;
        assert(games_of(here->Object_0) =~= games_of(there->Object_0));
        assert(here->Object_0 =~= there->Object_0);
    }
}

/// A value whose numbers are all integers nests no deeper than it was looked into.
proof fn lemma_integers_nest(json: Json, depth: nat)
    requires
        holds_integers(json, depth),
    ensures
        nests_within(json, depth),
    decreases depth,
{
    match json {
        Json::Array(items) => {
            assert forall|i: int| 0 <= i < items.len() implies nests_within(
                #[trigger] items[i],
                (depth - 1) as nat,
            ) by {
                lemma_integers_nest(items[i], (depth - 1) as nat);
            }
        },
        Json::Object(fields) => {
            assert forall|key: Seq<char>| #[trigger] fields.contains_key(key) implies nests_within(
                fields[key],
                (depth - 1) as nat,
            ) by {
                lemma_integers_nest(fields[key], (depth - 1) as nat);
            }
        },
        _ => {},
    }
}

/// Two games can be recorded in either order: the texts of the index are the same in the end, and
/// say that both games are in the old index. What was written in between has to be read back as it
/// is, which a number with a fraction can stand in the way of.
pub proof fn law_order_of_writing_does_not_matter(
    file: Option<Seq<u8>>,
    first: DownloadPlan,
    first_path: Seq<char>,
    second: DownloadPlan,
    second_path: Seq<char>,
    after_first: Seq<u8>,
    first_then_second: Seq<u8>,
    after_second: Seq<u8>,
    second_then_first: Seq<u8>,
)
    requires
        first.game.id@ != second.game.id@,
        ({
            let one = marker_json(first, first_path);
            let two = marker_json(second, second_path);
            &&& is_index_text(after_first, file, first.game.id@, one)
            &&& is_index_text(first_then_second, Some(after_first), second.game.id@, two)
            &&& is_index_text(after_second, file, second.game.id@, two)
            &&& is_index_text(second_then_first, Some(after_second), first.game.id@, one)
            &&& index_after(found_index(file), first.game.id@, one) matches Some(index)
                && is_read_back(index)
            &&& index_after(found_index(file), second.game.id@, two) matches Some(index)
                && is_read_back(index)
        }),
    ensures
        first_then_second == second_then_first,
        ({
            let one = marker_json(first, first_path);
            let two = marker_json(second, second_path);
            index_after(found_index(file), first.game.id@, one) matches Some(index) && (index_after(
                Some(index),
                second.game.id@,
                two,
            ) matches Some(Json::Object(fields)) && {
                &&& first_then_second == pretty_json(Json::Object(fields))
                &&& games_of(fields).contains_key(first.game.id@)
                &&& games_of(fields)[first.game.id@] == one
                &&& games_of(fields).contains_key(second.game.id@)
                &&& games_of(fields)[second.game.id@] == two
                &&& is_read_back(Json::Object(fields)) ==> parsed_json(first_then_second) == Some(
                    Json::Object(fields),
                )
            })
        }),
{
    let one = marker_json(first, first_path);
    let two = marker_json(second, second_path);
    let found = found_index(file);
    law_order_of_recording_does_not_matter(found, first.game.id@, one, second.game.id@, two);
    let index = index_after(found, first.game.id@, one)->Some_0;
    law_recorded_game_is_found(found, first.game.id@, one);
    law_recorded_game_is_found(Some(index), second.game.id@, two);
}

/// An index without fractions is read back as it is once a game is in it, and has no fractions
/// then either: so is every index that is written after it.
pub proof fn law_indexes_without_fractions_are_read_back(
    file: Option<Seq<u8>>,
    plan: DownloadPlan,
    path: Seq<char>,
    text: Seq<u8>,
)
    requires
        found_integers(file),
        is_index_text(text, file, plan.game.id@, marker_json(plan, path)),
    ensures
        index_after(found_index(file), plan.game.id@, marker_json(plan, path)) matches Some(index)
            && is_read_back(index) && parsed_json(text) == Some(index),
        found_integers(Some(text)),
{
    lemma_marker_is_flat(plan, path);
    if let Some(index) = found_index(file) {
        lemma_integers_nest(index, DEEPEST as nat);
    }
    lemma_index_stays_readable(found_index(file), plan.game.id@, marker_json(plan, path));
}

/// What the record of an installation says, whatever the game and the folder: the form of the
/// record, which game it is and in which version, where it is, which program starts it, and that it
/// was verified. It says nothing else.
pub proof fn law_record_of_an_installation(plan: DownloadPlan, path: Seq<char>)
    ensures
        marker_json(plan, path) matches Json::Object(fields) && {
            &&& forall|key: Seq<char>| #[trigger]
                fields.contains_key(key) <==> key == "schema"@ || key == "id"@ || key == "title"@
                    || key == "version"@ || key == "path"@ || key == "executable"@ || key
                    == "verified"@
            &&& fields["schema"@] == Json::Integer(1)
            &&& fields["id"@] == Json::Text(plan.game.id@)
            &&& fields["title"@] == Json::Text(plan.game.title@)
            &&& fields["version"@] == Json::Text(plan.manifest.version@)
            &&& fields["path"@] == Json::Text(path)
            &&& fields["executable"@] == Json::Text(joined_path(path, plan.manifest.entry_exe@))
            &&& fields["verified"@] == Json::Bool(true)
        },
{
    reveal_strlit("schema");
    reveal_strlit("id");
    reveal_strlit("title");
    reveal_strlit("version");
    reveal_strlit("path");
    reveal_strlit("executable");
    reveal_strlit("verified");
    assert("schema"@.len() == 6 && "id"@.len() == 2 && "title"@.len() == 5 && "version"@.len() == 7
        && "path"@.len() == 4 && "executable"@.len() == 10 && "verified"@.len() == 8);
}

/// What an index says once a game is in it: its form is the first; the game is listed with its
/// record; every game that was listed still is, with the record that it had, and no other is; and
/// every other field is as it was. A list that is none is begun anew. Only something that is neither
/// an object nor null cannot become an index.
pub proof fn law_index_lists_the_game(
    found: Option<Json>,
    id: Seq<char>,
    marker: Json,
    other: Seq<char>,
    key: Seq<char>,
)
    requires
        other != id,
        key != "games"@,
        key != "schema"@,
    ensures
        index_after(found, id, marker) is None <==> (found matches Some(index) && !(index is Object
            || index is Null)),
        index_after(found, id, marker) matches Some(index) ==> {
            &&& index matches Json::Object(fields) && {
                &&& fields.contains_key("schema"@) && fields["schema"@] == Json::Integer(1)
                &&& fields.contains_key("games"@)
                &&& fields["games"@] matches Json::Object(games) && {
                    &&& games.contains_key(id) && games[id] == marker
                    &&& match found {
                        Some(Json::Object(before)) => if before.contains_key("games"@) {
                            match before["games"@] {
                                Json::Object(old_games) => games.contains_key(other)
                                    == old_games.contains_key(other) && (old_games.contains_key(other)
                                    ==> games[other] == old_games[other]),
                                _ => !games.contains_key(other),
                            }
                        } else {
                            !games.contains_key(other)
                        },
                        _ => !games.contains_key(other),
                    }
                }
                &&& match found {
                    Some(Json::Object(before)) => fields.contains_key(key) == before.contains_key(
                        key,
                    ) && (before.contains_key(key) ==> fields[key] == before[key]),
                    _ => !fields.contains_key(key),
                }
            }
        },
{
    reveal_strlit("games");
    reveal_strlit("schema");
    assert("games"@.len() != "schema"@.len());
}

/// An index that is not there, or whose text cannot be read, counts as one that lists nothing.
pub proof fn law_unreadable_index_is_begun_anew(
    text: Seq<u8>,
    id: Seq<char>,
    marker: Json,
    written: Seq<u8>,
)
    requires
        parsed_json(text) is None,
    ensures
        is_index_text(written, Some(text), id, marker) == is_index_text(written, None, id, marker),
        found_index(None) is None,
{
}

/// An index is found in the text of its file, where there is one, and what is written for it is the
/// text of the index with the game in it.
pub proof fn law_index_is_found_and_written(
    text: Seq<u8>,
    bytes: &[u8],
    value: Value,
    file: Option<Seq<u8>>,
    id: Seq<char>,
    marker: Json,
    written: Seq<u8>,
)
    ensures
        found_index(Some(text)) == parsed_json(text),
        text_of_file(Some(bytes)) == Some(bytes@),
        text_of_file(None) is None,
        held(Some(value)) == Some(json_contents(value)),
        held(None) is None,
        is_index_text(written, file, id, marker) ==> (index_after(
            found_index(file),
            id,
            marker,
        ) matches Some(index) && written == pretty_json(index)),
{
}

} // verus!
