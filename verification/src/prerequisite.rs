//! The programs that have to be run before a game can be: what is called, and what came of it.

use crate::api::is_nonce;
use crate::digest::hex_digit;
use crate::errors::InstallError;
use crate::models::Prerequisite;
use crate::path::{
    is_bare_drive, is_installer_package, is_safe, is_segment, join_path, joined_path,
    law_joined_path_stays_below, lemma_not_a_bare_drive, lemma_one_segment,
    lemma_plain_name_is_safe, names_installer_package, path_segments,
};
use crate::text::{joined, replace, replaced, split_words, texts, words, Separator};
use vstd::prelude::*;

verus! {

broadcast use vstd::string::group_string_axioms;

/// A program to run, and what is passed to it.
#[derive(Debug)]
pub struct CommandLine {
    pub program: String,
    pub args: Vec<String>,
}

/// A program to run, and what is passed to it.
pub struct Call {
    pub program: Seq<char>,
    pub args: Seq<Seq<char>>,
}

impl View for CommandLine {
    type V = Call;

    open spec fn view(&self) -> Call {
        Call { program: self.program@, args: texts(self.args@) }
    }
}

/// The calls that command lines stand for.
pub open spec fn calls(lines: Seq<CommandLine>) -> Seq<Call> {
    lines.map_values(|line: CommandLine| line@)
}

/// Texts in each of which the folder takes the place of its placeholder.
pub open spec fn with_folder(list: Seq<Seq<char>>, folder: Seq<char>) -> Seq<Seq<char>> {
    list.map_values(|text: Seq<char>| replaced(text, "{extract}"@, folder))
}

/// What to run for a prerequisite whose own installer is `file`. One that unpacks another
/// installer is told where to, and that installer is run from there next. A Windows Installer
/// package is handed to the system's own installer.
pub open spec fn prerequisite_calls(
    prerequisite: Prerequisite,
    file: Seq<char>,
    extraction: Seq<char>,
) -> Seq<Call> {
    let args = words(prerequisite.args@);
    match prerequisite.extracted {
        Some(extracted) => seq![
            Call { program: file, args: with_folder(args, extraction) },
            Call {
                program: joined_path(extraction, extracted.exe@),
                args: words(extracted.args@),
            },
        ],
        None => if names_installer_package(file) {
            seq![Call { program: "msiexec.exe"@, args: seq!["/i"@, file] + args }]
        } else {
            seq![Call { program: file, args }]
        },
    }
}

/// How many programs are run for a prerequisite.
pub open spec fn call_count(prerequisite: Prerequisite) -> nat {
    if prerequisite.extracted is Some {
        2
    } else {
        1
    }
}

/// The texts, in each of which the folder takes the place of its placeholder.
fn fill_in_folder(list: &Vec<String>, folder: &str) -> (r: Vec<String>)
    ensures
        texts(r@) == with_folder(texts(list@), folder@),
{
    let mut r: Vec<String> = Vec::new();
    let mut i: usize = 0;
    while i < list.len()
        invariant
            i <= list@.len(),
            r@.len() == i,
            forall|j: int|
                0 <= j < i ==> #[trigger] r@[j]@ == replaced(list@[j]@, "{extract}"@, folder@),
        decreases list@.len() - i,
    {
        proof {
            reveal_strlit("{extract}");
        }
        r.push(replace(list[i].as_str(), "{extract}", folder));
        i = i + 1;
    }
    assert(texts(r@) =~= with_folder(texts(list@), folder@));
    r
}

/// What to run for a prerequisite, in order, once its own installer is there as `file`. The
/// folder to unpack to counts only for a prerequisite that unpacks another installer.
pub fn run_prerequisite(prerequisite: &Prerequisite, file: &str, extraction: &str) -> (lines: Vec<
    CommandLine,
>)
    ensures
        calls(lines@) == prerequisite_calls(*prerequisite, file@, extraction@),
        lines@.len() == call_count(*prerequisite),
{
    let args = split_words(prerequisite.args.as_str());
    let mut lines: Vec<CommandLine> = Vec::new();
    match &prerequisite.extracted {
        Some(extracted) => {
            lines.push(
                CommandLine { program: file.to_owned(), args: fill_in_folder(&args, extraction) },
            );
            lines.push(
                CommandLine {
                    program: join_path(extraction, extracted.exe.as_str()),
                    args: split_words(extracted.args.as_str()),
                },
            );
        },
        None => if is_installer_package(file) {
            let mut all: Vec<String> = Vec::new();
            all.push("/i".to_owned());
            all.push(file.to_owned());
            let ghost head = texts(all@);
            assert(head =~= head + texts(args@).take(0));
            let mut i: usize = 0;
            while i < args.len()
                invariant
                    i <= args@.len(),
                    texts(all@) == head + texts(args@).take(i as int),
                decreases args@.len() - i,
            {
                let ghost done = texts(all@);
                all.push(args[i].clone());
                assert(texts(all@) =~= done.push(texts(args@)[i as int]));
                i = i + 1;
                assert(texts(all@) =~= head + texts(args@).take(i as int));
            }
            assert(texts(all@) =~= seq!["/i"@, file@] + texts(args@));
            lines.push(CommandLine { program: "msiexec.exe".to_owned(), args: all });
        } else {
            lines.push(CommandLine { program: file.to_owned(), args });
        },
    }
    assert(calls(lines@) =~= prerequisite_calls(*prerequisite, file@, extraction@));
    lines
}

/// The one of the programs to run for a prerequisite that comes after the given number of them.
pub fn prerequisite_call(
    prerequisite: &Prerequisite,
    file: &str,
    extraction: &str,
    called: usize,
) -> (line: CommandLine)
    requires
        called < call_count(*prerequisite),
    ensures
        line@ == prerequisite_calls(*prerequisite, file@, extraction@)[called as int],
{
    let mut lines = run_prerequisite(prerequisite, file, extraction);
    assert(calls(lines@)[called as int] == lines@[called as int]@);
    lines.swap_remove(called)
}

/// How a program ended: whether with success, and its status in words.
#[derive(Debug)]
pub struct ProgramEnd {
    pub success: bool,
    pub status: String,
}

/// What came of running a program for a prerequisite: it failed unless it ended with success.
pub fn ensure_success(success: bool, status: String, name: &str) -> (r: Result<(), InstallError>)
    ensures
        match r {
            Ok(()) => success,
            Err(error) => !success && (error matches InstallError::Prerequisite(who, how) && who@
                == name@ && how == status),
        },
{
    if success {
        Ok(())
    } else {
        Err(InstallError::Prerequisite(name.to_owned(), status))
    }
}

/// The folder that prerequisites are downloaded to.
pub open spec fn folder_of_prerequisites(target: Seq<char>) -> Seq<char> {
    joined_path(joined_path(target, ".preserve"@), "prerequisites"@)
}

/// The folder that prerequisites are downloaded to.
pub fn prerequisite_folder(target: &str) -> (r: String)
    ensures
        r@ == folder_of_prerequisites(target@),
{
    join_path(join_path(target, ".preserve").as_str(), "prerequisites")
}

/// Whether a text is a random identifier in its usual form: 32 lower-case hexadecimal digits in
/// groups of 8, 4, 4, 4 and 12, of which the third starts with the version and the fourth with
/// the variant.
pub open spec fn is_identifier(text: Seq<char>) -> bool {
    &&& text.len() == 36
    &&& forall|i: int|
        0 <= i < 36 ==> if i == 8 || i == 13 || i == 18 || i == 23 {
            #[trigger] text[i] == '-'
        } else {
            exists|value: nat| value < 16 && text[i] == #[trigger] hex_digit(value)
        }
    &&& text[14] == '4'
    &&& text[19] == '8' || text[19] == '9' || text[19] == 'a' || text[19] == 'b'
}

/// `Uuid::new_v4`, written out: a random version 4 identifier. Which one is chance. The call
/// panics where the system has no randomness to give.
#[verifier::external_body]
pub(crate) fn random_identifier() -> (text: String)
    ensures
        is_identifier(text@),
{
    uuid::Uuid::new_v4().to_string()
}

/// A folder for a prerequisite to unpack another installer to, under the given identifier.
pub open spec fn unpacking_folder(target: Seq<char>, identifier: Seq<char>) -> Seq<char> {
    joined_path(joined_path(target, ".preserve"@), "prereq-"@ + identifier)
}

/// A folder for a prerequisite to unpack another installer to, under the given identifier.
pub fn folder_to_unpack_to(target: &str, identifier: &str) -> (r: String)
    ensures
        r@ == unpacking_folder(target@, identifier@),
{
    let name = joined("prereq-", identifier);
    join_path(join_path(target, ".preserve").as_str(), name.as_str())
}

/// A name from an identifier is safe to be placed below a folder.
pub proof fn lemma_identifier_is_a_name(identifier: Seq<char>)
    requires
        is_identifier(identifier),
    ensures
        is_safe("prereq-"@ + identifier),
        is_segment("prereq-"@ + identifier),
{
    let name = "prereq-"@ + identifier;
    reveal_strlit("prereq-");
    reveal_strlit(".");
    assert forall|j: int| 0 <= j < name.len() implies !Separator::Path.divides(#[trigger] name[j])
        && name[j] != ':' by {
        if j >= 7 {
            let c = identifier[j - 7];
            assert(name[j] == c);
            if c != '-' {
                let value = choose|value: nat| value < 16 && c == #[trigger] hex_digit(value);
                assert(c == hex_digit(value));
            }
        }
    }
    assert("."@.len() == 1);
    lemma_plain_name_is_safe(name);
}

/// Every word of the arguments that a manifest gives reaches the program that it is meant for, in
/// order, and none is added or left out. A Windows Installer package is handed to the system's own
/// installer, before the words and after `/i`. A prerequisite that unpacks another installer is run
/// first, with the folder in place of its placeholder, and the other installer after it.
pub proof fn law_every_argument_is_passed_on(
    prerequisite: Prerequisite,
    file: Seq<char>,
    extraction: Seq<char>,
)
    ensures
        ({
            let given = words(prerequisite.args@);
            let run = prerequisite_calls(prerequisite, file, extraction);
            match prerequisite.extracted {
                Some(extracted) => {
                    &&& run.len() == 2
                    &&& call_count(prerequisite) == 2
                    &&& run[0].program == file
                    &&& run[0].args.len() == given.len()
                    &&& forall|i: int|
                        0 <= i < given.len() ==> #[trigger] run[0].args[i] == replaced(
                            given[i],
                            "{extract}"@,
                            extraction,
                        )
                    &&& run[1].program == joined_path(extraction, extracted.exe@)
                    &&& run[1].args.len() == words(extracted.args@).len()
                    &&& forall|i: int|
                        0 <= i < words(extracted.args@).len() ==> #[trigger] run[1].args[i] == words(
                            extracted.args@,
                        )[i]
                },
                None => {
                    let first: nat = if names_installer_package(file) {
                        2
                    } else {
                        0
                    };
                    &&& run.len() == 1
                    &&& call_count(prerequisite) == 1
                    &&& run[0].args.len() == given.len() + first
                    &&& forall|i: int|
                        0 <= i < given.len() ==> #[trigger] given[i] == run[0].args[i + first]
                    &&& names_installer_package(file) ==> run[0].program == "msiexec.exe"@
                        && run[0].args[0] == "/i"@ && run[0].args[1] == file
                    &&& !names_installer_package(file) ==> run[0].program == file
                },
            }
        }),
{
}

/// Prerequisites are downloaded to one folder, and each that unpacks another installer does so to a
/// folder of its own. Both lie in the one folder below the game's that is not part of the game.
pub proof fn law_folders_of_prerequisites(target: Seq<char>, identifier: Seq<char>)
    requires
        is_identifier(identifier),
        !is_bare_drive(target),
    ensures
        path_segments(folder_of_prerequisites(target)) == path_segments(target) + seq![
            ".preserve"@,
            "prerequisites"@,
        ],
        path_segments(unpacking_folder(target, identifier)) == path_segments(target) + seq![
            ".preserve"@,
            "prereq-"@ + identifier,
        ],
{
    let outer = joined_path(target, ".preserve"@);
    reveal_strlit(".preserve");
    reveal_strlit("prerequisites");
    reveal_strlit("prereq-");
    reveal_strlit(".");
    assert("."@.len() == 1);
    lemma_plain_name_is_safe(".preserve"@);
    lemma_plain_name_is_safe("prerequisites"@);
    lemma_one_segment(".preserve"@);
    lemma_one_segment("prerequisites"@);
    lemma_identifier_is_a_name(identifier);
    lemma_one_segment("prereq-"@ + identifier);
    law_joined_path_stays_below(target, ".preserve"@);
    assert(path_segments(outer).last() == ".preserve"@);
    lemma_not_a_bare_drive(outer);
    law_joined_path_stays_below(outer, "prerequisites"@);
    law_joined_path_stays_below(outer, "prereq-"@ + identifier);
    assert(path_segments(folder_of_prerequisites(target)) =~= path_segments(target) + seq![
        ".preserve"@,
        "prerequisites"@,
    ]);
    assert(path_segments(unpacking_folder(target, identifier)) =~= path_segments(target) + seq![
        ".preserve"@,
        "prereq-"@ + identifier,
    ]);
}

/// A call is the program and all that is passed to it, and calls are those of the command lines, each
/// at its place.
pub proof fn law_command_lines_are_seen_whole(
    line: CommandLine,
    lines: Seq<CommandLine>,
    i: int,
    j: int,
)
    requires
        0 <= i < line.args@.len(),
        0 <= j < lines.len(),
    ensures
        line@.program == line.program@,
        line@.args.len() == line.args@.len(),
        line@.args[i] == line.args@[i]@,
        calls(lines).len() == lines.len(),
        calls(lines)[j] == lines[j]@,
{
}

/// An identifier is a nonce with four hyphens in it, and a nonce with hyphens at these places is an
/// identifier.
pub proof fn law_identifier_is_a_nonce_with_hyphens(text: Seq<char>, nonce: Seq<char>)
    ensures
        is_identifier(text) ==> text.len() == 36 && text[8] == '-' && text[13] == '-' && text[18]
            == '-' && text[23] == '-' && is_nonce(
            text.subrange(0, 8) + text.subrange(9, 13) + text.subrange(14, 18) + text.subrange(
                19,
                23,
            ) + text.subrange(24, 36),
        ),
        is_nonce(nonce) ==> is_identifier(
            nonce.subrange(0, 8).push('-') + nonce.subrange(8, 12).push('-') + nonce.subrange(
                12,
                16,
            ).push('-') + nonce.subrange(16, 20).push('-') + nonce.subrange(20, 32),
        ),
{
    if is_identifier(text) {
        let short = text.subrange(0, 8) + text.subrange(9, 13) + text.subrange(14, 18)
            + text.subrange(19, 23) + text.subrange(24, 36);
        assert forall|i: int| 0 <= i < 32 implies exists|value: nat|
            value < 16 && #[trigger] short[i] == #[trigger] hex_digit(value) by {
            let j = if i < 8 {
                i
            } else if i < 12 {
                i + 1
            } else if i < 16 {
                i + 2
            } else if i < 20 {
                i + 3
            } else {
                i + 4
            };
            assert(short[i] == text[j]);
            let value = choose|value: nat| value < 16 && text[j] == #[trigger] hex_digit(value);
            assert(value < 16 && short[i] == hex_digit(value));
        }
    }
    if is_nonce(nonce) {
        let long = nonce.subrange(0, 8).push('-') + nonce.subrange(8, 12).push('-')
            + nonce.subrange(12, 16).push('-') + nonce.subrange(16, 20).push('-')
            + nonce.subrange(20, 32);
        assert forall|i: int| 0 <= i < 36 implies if i == 8 || i == 13 || i == 18 || i == 23 {
            #[trigger] long[i] == '-'
        } else {
            exists|value: nat| value < 16 && long[i] == #[trigger] hex_digit(value)
        } by {
            if !(i == 8 || i == 13 || i == 18 || i == 23) {
                let j = if i < 8 {
                    i
                } else if i < 13 {
                    i - 1
                } else if i < 18 {
                    i - 2
                } else if i < 23 {
                    i - 3
                } else {
                    i - 4
                };
                assert(long[i] == nonce[j]);
                let value = choose|value: nat|
                    value < 16 && nonce[j] == #[trigger] hex_digit(value);
                assert(value < 16 && long[i] == hex_digit(value));
            }
        }
    }
}

} // verus!
