//! Windows paths: placing the files of a manifest below a folder, and their names.

use crate::errors::InstallError;
use crate::text::{
    chars_of, full_pieces, joined, lemma_pieces_around_separator, lemma_pieces_hold_no_separator,
    lemma_pieces_not_empty, lemma_single_piece, pieces, same_text, split, split_full, starts_with,
    text_of, texts, Separator,
};
use vstd::prelude::*;

verus! {

broadcast use vstd::string::group_string_axioms;

/// Whether a path starts with a drive letter and a colon.
pub open spec fn has_drive(path: Seq<char>) -> bool {
    &&& path.len() >= 2
    &&& ('a' <= path[0] && path[0] <= 'z') || ('A' <= path[0] && path[0] <= 'Z')
    &&& path[1] == ':'
}

/// Whether a path starts at a root, of a drive or of a share.
pub open spec fn is_rooted(path: Seq<char>) -> bool {
    path.len() > 0 && Separator::Path.divides(path[0])
}

/// Whether a piece of a path names something: neither empty nor the current folder.
pub open spec fn names_something(piece: Seq<char>) -> bool {
    piece.len() > 0 && piece != "."@
}

/// The folders and the file that a path names, in order. The parent folder, `..`, is one of them.
pub open spec fn path_segments(path: Seq<char>) -> Seq<Seq<char>> {
    pieces(path, Separator::Path).filter(|piece: Seq<char>| names_something(piece))
}

/// Whether a relative path stays below the folder that it starts from.
pub open spec fn is_safe(relative: Seq<char>) -> bool {
    &&& !is_rooted(relative)
    &&& !has_drive(relative)
    &&& !path_segments(relative).contains(".."@)
}

/// Segments with backslashes between them.
pub open spec fn with_backslashes(segments: Seq<Seq<char>>) -> Seq<char>
    decreases segments.len(),
{
    if segments.len() == 0 {
        Seq::empty()
    } else if segments.len() == 1 {
        segments[0]
    } else {
        with_backslashes(segments.drop_last()) + seq!['\\'] + segments.last()
    }
}

/// Whether a path is in verbatim form, which Windows takes as it stands.
pub open spec fn is_verbatim(path: Seq<char>) -> bool {
    starts_with(path, seq!['\\', '\\', '?', '\\'])
}

/// Where the piece that starts at a position ends.
pub open spec fn piece_end(path: Seq<char>, start: nat, separator: Separator) -> nat
    decreases path.len() - start,
{
    if start < path.len() && !separator.divides(path[start as int]) {
        piece_end(path, start + 1, separator)
    } else {
        start
    }
}

/// Where a server's name that starts at a position ends, with the name of a share after it, if
/// there is one.
pub open spec fn share_end(path: Seq<char>, start: nat, separator: Separator) -> nat {
    let server = piece_end(path, start, separator);
    let share = piece_end(path, server + 1, separator);
    if share > server + 1 {
        share
    } else {
        server
    }
}

/// The length of what a path starts with before its first root or name: a drive letter, a server
/// and its share, a device, or one of these in verbatim form.
pub open spec fn prefix_length(path: Seq<char>) -> nat {
    if is_verbatim(path) {
        if path.len() >= 8 && path.subrange(4, 7) == seq!['U', 'N', 'C']
            && Separator::Path.divides(path[7]) {
            share_end(path, 8, Separator::Backslash)
        } else if has_drive(path.skip(4)) && (path.len() == 6 || Separator::Path.divides(path[6])) {
            6
        } else {
            piece_end(path, 4, Separator::Backslash)
        }
    } else if path.len() >= 2 && Separator::Path.divides(path[0]) && Separator::Path.divides(
        path[1],
    ) {
        if path.len() >= 4 && path[2] == '.' && Separator::Path.divides(path[3]) {
            piece_end(path, 4, Separator::Path)
        } else {
            let server = piece_end(path, 2, Separator::Path);
            let share = share_end(path, 2, Separator::Path);
            if server > 2 && share > server {
                share
            } else {
                0
            }
        }
    } else if has_drive(path) {
        2
    } else {
        0
    }
}

/// The length of what a path starts with before its first name, the root among it.
pub open spec fn start_length(path: Seq<char>) -> nat {
    if is_rooted(path.skip(prefix_length(path) as int)) {
        prefix_length(path) + 1
    } else {
        prefix_length(path)
    }
}

/// What follows the start of a path and its root: its names.
pub open spec fn body(path: Seq<char>) -> Seq<char> {
    path.skip(start_length(path) as int)
}

/// What separates the names of a path.
pub open spec fn separator_of(path: Seq<char>) -> Separator {
    if is_verbatim(path) {
        Separator::Backslash
    } else {
        Separator::Path
    }
}

/// Whether a separator has to follow a folder's path before a name: not where it ends in one,
/// and not after a bare drive letter.
pub open spec fn needs_separator(root: Seq<char>) -> bool {
    &&& root.len() > 0
    &&& !Separator::Path.divides(root.last())
    &&& !is_bare_drive(root)
}

/// Whether a path is a drive letter and a colon alone.
pub open spec fn is_bare_drive(path: Seq<char>) -> bool {
    path.len() == 2 && has_drive(path)
}

/// Names after which further ones follow. A parent folder takes the last name away, unless that
/// is no proper name itself.
pub open spec fn names_after(names: Seq<Seq<char>>, more: Seq<Seq<char>>) -> Seq<Seq<char>>
    decreases more.len(),
{
    if more.len() == 0 {
        names
    } else {
        let before = names_after(names, more.drop_last());
        if more.last() == ".."@ {
            if before.len() > 0 && before.last() != "."@ && before.last() != ".."@ {
                before.drop_last()
            } else {
                before
            }
        } else {
            before.push(more.last())
        }
    }
}

/// A path that is joined to a folder in verbatim form. Only plain names can stand there, so the
/// whole is put together anew.
pub open spec fn joined_to_verbatim(root: Seq<char>, path: Seq<char>) -> Seq<char> {
    let start = root.take(prefix_length(root) as int);
    let own = if is_rooted(path) {
        Seq::<Seq<char>>::empty()
    } else {
        full_pieces(body(root), Separator::Backslash)
    };
    let names = names_after(own, path_segments(path));
    if names.len() > 0 {
        start + seq!['\\'] + with_backslashes(names)
    } else if is_rooted(path) || start_length(root) > prefix_length(root) {
        start + seq!['\\']
    } else {
        start
    }
}

/// A path that is joined to a folder. One that has a drive or a share of its own takes the
/// folder's place, and one that starts at a root starts at the root of the folder.
pub open spec fn joined_path(root: Seq<char>, path: Seq<char>) -> Seq<char> {
    if prefix_length(path) > 0 {
        path
    } else if is_verbatim(root) && path.len() > 0 {
        joined_to_verbatim(root, path)
    } else if is_rooted(path) {
        root.take(prefix_length(root) as int) + path
    } else if needs_separator(root) {
        root + seq!['\\'] + path
    } else {
        root + path
    }
}

/// The names of a path without what follows the last of them: separators and current folders. In
/// verbatim form a current folder is not left out.
pub open spec fn trimmed(names: Seq<char>, verbatim: bool) -> Seq<char>
    decreases names.len(),
{
    let separator = if verbatim {
        Separator::Backslash
    } else {
        Separator::Path
    };
    if names.len() == 0 {
        names
    } else if separator.divides(names.last()) {
        trimmed(names.drop_last(), verbatim)
    } else if !verbatim && names.last() == '.' && (names.len() == 1 || separator.divides(
        names[names.len() - 2],
    )) {
        trimmed(names.drop_last(), verbatim)
    } else {
        names
    }
}

/// Where the last piece of a text starts.
pub open spec fn last_piece(text: Seq<char>, separator: Separator) -> nat
    decreases text.len(),
{
    if text.len() == 0 || separator.divides(text.last()) {
        text.len()
    } else {
        last_piece(text.drop_last(), separator)
    }
}

/// The name of the file or folder at the end of a path, if the path ends in a name.
pub open spec fn file_name(path: Seq<char>) -> Option<Seq<char>> {
    let rest = trimmed(body(path), is_verbatim(path));
    let name = rest.skip(last_piece(rest, separator_of(path)) as int);
    if name.len() == 0 || name == "."@ || name == ".."@ {
        None
    } else {
        Some(name)
    }
}

/// A path up to the end of the last name in it.
pub open spec fn up_to_name(path: Seq<char>) -> Seq<char> {
    path.take(start_length(path) as int) + trimmed(body(path), is_verbatim(path))
}

/// The position of the last dot of a name.
pub open spec fn last_dot(name: Seq<char>) -> Option<nat>
    decreases name.len(),
{
    if name.len() == 0 {
        None
    } else if name.last() == '.' {
        Some((name.len() - 1) as nat)
    } else {
        last_dot(name.drop_last())
    }
}

/// What follows the last dot of a name, unless that dot starts the name.
pub open spec fn extension(name: Seq<char>) -> Option<Seq<char>> {
    match last_dot(name) {
        Some(dot) => if dot > 0 {
            Some(name.skip(dot as int + 1))
        } else {
            None
        },
        None => None,
    }
}

/// The path under which a file is kept while it is incomplete.
pub open spec fn partial_of(destination: Seq<char>) -> Seq<char> {
    if file_name(destination) is Some {
        up_to_name(destination) + ".preserve-part"@
    } else {
        destination
    }
}

/// Whether a path names a Windows Installer package.
pub open spec fn names_installer_package(path: Seq<char>) -> bool {
    match file_name(path) {
        Some(name) => match extension(name) {
            Some(ending) => crate::text::same_ignoring_case(ending, "msi"@),
            None => false,
        },
        None => false,
    }
}

/// The segments that a path names, in order.
fn segments_of(path: &str) -> (list: Vec<String>)
    ensures
        texts(list@) == path_segments(path@),
{
    let parts = split(path, Separator::Path);
    let ghost full = pieces(path@, Separator::Path);
    let ghost kept = |piece: Seq<char>| names_something(piece);
    let mut list: Vec<String> = Vec::new();
    let mut i: usize = 0;
    assert(full.take(0) =~= Seq::<Seq<char>>::empty());
    reveal(Seq::filter);
    assert(texts(list@) =~= full.take(0).filter(kept));
    while i < parts.len()
        invariant
            i <= parts@.len(),
            texts(parts@) == full,
            kept == (|piece: Seq<char>| names_something(piece)),
            texts(list@) == full.take(i as int).filter(kept),
        decreases parts@.len() - i,
    {
        let ghost done = texts(list@);
        proof {
            assert(full.take(i + 1) =~= full.take(i as int).push(full[i as int]));
            full.take(i as int).lemma_filter_push(full[i as int], kept);
            assert(full[i as int] == parts@[i as int]@);
        }
        let piece = parts[i].as_str();
        if !piece.is_empty() && !same_text(piece, ".") {
            list.push(parts[i].clone());
            assert(texts(list@) =~= done.push(full[i as int]));
        }
        i = i + 1;
    }
    assert(full.take(full.len() as int) =~= full);
    list
}

/// Whether a path starts with a drive letter and a colon.
fn starts_with_drive(path: &Vec<char>) -> (r: bool)
    ensures
        r == has_drive(path@),
{
    if path.len() < 2 {
        return false;
    }
    let first = path[0];
    (('a' <= first && first <= 'z') || ('A' <= first && first <= 'Z')) && path[1] == ':'
}

/// Whether a path is in verbatim form.
fn has_verbatim_form(path: &Vec<char>) -> (r: bool)
    ensures
        r == is_verbatim(path@),
{
    if path.len() < 4 {
        return false;
    }
    let r = path[0] == '\\' && path[1] == '\\' && path[2] == '?' && path[3] == '\\';
    let ghost mark = seq!['\\', '\\', '?', '\\'];
    proof {
        if r {
            assert(path@.take(4) =~= mark);
        } else if path@.take(4) == mark {
            assert(path@.take(4)[0] == mark[0]);
            assert(path@.take(4)[1] == mark[1]);
            assert(path@.take(4)[2] == mark[2]);
            assert(path@.take(4)[3] == mark[3]);
        }
    }
    r
}

/// Segments with backslashes between them.
fn with_backslashes_between(segments: &Vec<String>) -> (r: String)
    ensures
        r@ == with_backslashes(texts(segments@)),
{
    let ghost list = texts(segments@);
    let mut i: usize = 0;
    let mut r = String::new();
    assert(list.take(0) =~= Seq::<Seq<char>>::empty());
    while i < segments.len()
        invariant
            i <= segments@.len(),
            texts(segments@) == list,
            r@ == with_backslashes(list.take(i as int)),
        decreases segments@.len() - i,
    {
        assert(list[i as int] == segments@[i as int]@);
        assert(list.take(i + 1).drop_last() =~= list.take(i as int));
        if i > 0 {
            r.push('\\');
        }
        r.append(segments[i].as_str());
        i = i + 1;
        assert(r@ =~= with_backslashes(list.take(i as int)));
    }
    assert(list.take(list.len() as int) =~= list);
    r
}

/// Where the piece that starts at a position ends.
fn find_piece_end(path: &Vec<char>, start: usize, separator: Separator) -> (end: usize)
    requires
        start <= path@.len(),
    ensures
        end == piece_end(path@, start as nat, separator),
        start <= end <= path@.len(),
{
    let mut end: usize = start;
    while end < path.len() && !separator.is(path[end])
        invariant
            start <= end <= path@.len(),
            piece_end(path@, start as nat, separator) == piece_end(path@, end as nat, separator),
        decreases path@.len() - end,
    {
        end = end + 1;
    }
    end
}

/// Where a server's name that starts at a position ends, with the name of a share after it, if
/// there is one.
fn find_share_end(path: &Vec<char>, start: usize, separator: Separator) -> (end: usize)
    requires
        start <= path@.len(),
    ensures
        end == share_end(path@, start as nat, separator),
        start <= end <= path@.len(),
{
    let server: usize = find_piece_end(path, start, separator);
    if server == path.len() {
        return server;
    }
    let share: usize = find_piece_end(path, server + 1, separator);
    if share > server + 1 {
        share
    } else {
        server
    }
}

/// The length of what a path starts with before its first root or name.
fn prefix_of(path: &Vec<char>) -> (length: usize)
    ensures
        length == prefix_length(path@),
        length <= path@.len(),
{
    if has_verbatim_form(path) {
        if path.len() >= 8 && path[4] == 'U' && path[5] == 'N' && path[6] == 'C'
            && Separator::Path.is(path[7]) {
            assert(path@.subrange(4, 7) =~= seq!['U', 'N', 'C']);
            return find_share_end(path, 8, Separator::Backslash);
        }
        proof {
            if path@.len() >= 8 && path@.subrange(4, 7) == seq!['U', 'N', 'C'] {
                let word = path@.subrange(4, 7);
                assert(word[0] == 'U' && word[1] == 'N' && word[2] == 'C');
            }
        }
        if path.len() >= 6 && (('a' <= path[4] && path[4] <= 'z') || ('A' <= path[4] && path[4]
            <= 'Z')) && path[5] == ':' && (path.len() == 6 || Separator::Path.is(path[6])) {
            6
        } else {
            find_piece_end(path, 4, Separator::Backslash)
        }
    } else if path.len() >= 2 && Separator::Path.is(path[0]) && Separator::Path.is(path[1]) {
        if path.len() >= 4 && path[2] == '.' && Separator::Path.is(path[3]) {
            find_piece_end(path, 4, Separator::Path)
        } else {
            let server: usize = find_piece_end(path, 2, Separator::Path);
            let share: usize = find_share_end(path, 2, Separator::Path);
            if server > 2 && share > server {
                share
            } else {
                0
            }
        }
    } else if starts_with_drive(path) {
        2
    } else {
        0
    }
}

/// The length of what a path starts with before its first name, from the length of what comes
/// before its root.
fn start_of(path: &Vec<char>, prefix: usize) -> (length: usize)
    requires
        prefix == prefix_length(path@),
        prefix <= path@.len(),
    ensures
        length == start_length(path@),
        prefix <= length <= path@.len(),
{
    if prefix < path.len() && Separator::Path.is(path[prefix]) {
        prefix + 1
    } else {
        prefix
    }
}

/// Names after which further ones follow.
fn add_names(names: Vec<String>, more: &Vec<String>) -> (r: Vec<String>)
    ensures
        texts(r@) == names_after(texts(names@), texts(more@)),
{
    let ghost start = texts(names@);
    let ghost list = texts(more@);
    let mut r = names;
    let mut i: usize = 0;
    assert(list.take(0) =~= Seq::<Seq<char>>::empty());
    while i < more.len()
        invariant
            i <= more@.len(),
            list == texts(more@),
            texts(r@) == names_after(start, list.take(i as int)),
        decreases more@.len() - i,
    {
        let ghost before = texts(r@);
        proof {
            assert(list.take(i + 1).drop_last() =~= list.take(i as int));
            assert(list.take(i + 1).last() == more@[i as int]@);
            assert(forall|j: int| 0 <= j < r@.len() ==> before[j] == r@[j]@);
        }
        if same_text(more[i].as_str(), "..") {
            if r.len() > 0 {
                let last = r[r.len() - 1].as_str();
                if !same_text(last, ".") && !same_text(last, "..") {
                    let _ = r.pop();
                    assert(texts(r@) =~= before.drop_last());
                }
            }
        } else {
            r.push(more[i].clone());
            assert(texts(r@) =~= before.push(more@[i as int]@));
        }
        i = i + 1;
    }
    assert(list.take(list.len() as int) =~= list);
    r
}

/// A path that is joined to a folder. One that has a drive or a share of its own takes the
/// folder's place, and one that starts at a root starts at the root of the folder.
pub fn join_path(root: &str, path: &str) -> (r: String)
    ensures
        r@ == joined_path(root@, path@),
{
    let folder = chars_of(root);
    let chars = chars_of(path);
    if prefix_of(&chars) > 0 {
        return path.to_owned();
    }
    let rooted = chars.len() > 0 && Separator::Path.is(chars[0]);
    let prefix: usize = prefix_of(&folder);
    let mut r = text_of(&folder, 0, prefix);
    assert(r@ =~= root@.take(prefix as int));
    if has_verbatim_form(&folder) && chars.len() > 0 {
        let start: usize = start_of(&folder, prefix);
        let rest = text_of(&folder, start, folder.len());
        assert(rest@ =~= body(root@));
        let own = if rooted {
            Vec::new()
        } else {
            split_full(rest.as_str(), Separator::Backslash)
        };
        proof {
            if rooted {
                assert(texts(own@) =~= Seq::<Seq<char>>::empty());
            }
        }
        let names = add_names(own, &segments_of(path));
        if names.len() > 0 {
            r.push('\\');
            r.append(with_backslashes_between(&names).as_str());
        } else if rooted || start > prefix {
            r.push('\\');
        }
        assert(r@ =~= joined_to_verbatim(root@, path@));
        return r;
    }
    if rooted {
        r.append(path);
        return r;
    }
    let mut r = root.to_owned();
    if folder.len() > 0 && !Separator::Path.is(folder[folder.len() - 1]) && !(folder.len() == 2
        && starts_with_drive(&folder)) {
        r.push('\\');
    }
    r.append(path);
    assert(r@ =~= joined_path(root@, path@));
    r
}

/// The path of what `relative` names below the folder `root`. Refuses a `relative` that starts
/// at a drive or a root, or that mentions a parent folder.
pub fn safe_join(root: &str, relative: &str) -> (r: Result<String, InstallError>)
    ensures
        match r {
            Ok(path) => is_safe(relative@) && path@ == joined_path(root@, relative@),
            Err(error) => !is_safe(relative@) && error is UnsafePath,
        },
{
    let chars = chars_of(relative);
    if starts_with_drive(&chars) || (chars.len() > 0 && Separator::Path.is(chars[0])) {
        return Err(InstallError::UnsafePath);
    }
    let segments = segments_of(relative);
    let ghost list = path_segments(relative@);
    let mut i: usize = 0;
    while i < segments.len()
        invariant
            i <= segments@.len(),
            texts(segments@) == list,
            list == path_segments(relative@),
            forall|j: int| 0 <= j < i ==> #[trigger] list[j] != ".."@,
        decreases segments@.len() - i,
    {
        assert(list[i as int] == segments@[i as int]@);
        if same_text(segments[i].as_str(), "..") {
            assert(list.contains(".."@));
            return Err(InstallError::UnsafePath);
        }
        i = i + 1;
    }
    assert(!list.contains(".."@));
    Ok(join_path(root, relative))
}

/// The length of the names of a path without what follows the last of them.
fn trimmed_length(names: &Vec<char>, verbatim: bool) -> (end: usize)
    ensures
        end <= names@.len(),
        trimmed(names@, verbatim) == names@.take(end as int),
{
    let separator = if verbatim {
        Separator::Backslash
    } else {
        Separator::Path
    };
    let mut end: usize = names.len();
    assert(names@.take(end as int) =~= names@);
    while end > 0
        invariant_except_break
            end <= names@.len(),
            separator == if verbatim {
                Separator::Backslash
            } else {
                Separator::Path
            },
            trimmed(names@, verbatim) == trimmed(names@.take(end as int), verbatim),
        ensures
            end <= names@.len(),
            trimmed(names@, verbatim) == names@.take(end as int),
        decreases end,
    {
        let ghost rest = names@.take(end as int);
        assert(rest.drop_last() =~= names@.take(end - 1));
        assert(rest.last() == names@[end - 1]);
        let c = names[end - 1];
        if !separator.is(c) && (verbatim || c != '.' || (end > 1 && !separator.is(names[end - 2]))) {
            break;
        }
        end = end - 1;
    }
    end
}

/// The position where the last name of a path ends, and that name, if the path ends in one.
fn name_of(path: &Vec<char>) -> (r: Option<(usize, String)>)
    ensures
        match r {
            Some((end, name)) => file_name(path@) == Some(name@) && end <= path@.len() && path@.take(
                end as int,
            ) == up_to_name(path@),
            None => file_name(path@) is None,
        },
{
    let verbatim = has_verbatim_form(path);
    let separator = if verbatim {
        Separator::Backslash
    } else {
        Separator::Path
    };
    let first: usize = start_of(path, prefix_of(path));
    let names = chars_of(text_of(path, first, path.len()).as_str());
    assert(names@ =~= body(path@));
    let end: usize = trimmed_length(&names, verbatim);
    let ghost rest = trimmed(names@, verbatim);
    let mut start: usize = end;
    assert(rest.take(end as int) =~= rest);
    while start > 0 && !separator.is(names[start - 1])
        invariant
            start <= end <= names@.len(),
            rest == names@.take(end as int),
            last_piece(rest, separator) == last_piece(rest.take(start as int), separator),
        decreases start,
    {
        assert(rest.take(start as int).drop_last() =~= rest.take(start - 1));
        start = start - 1;
    }
    assert(last_piece(rest, separator) == start);
    assert(rest.skip(start as int) =~= names@.subrange(start as int, end as int));
    let name = text_of(&names, start, end);
    if name.as_str().is_empty() || same_text(name.as_str(), ".") || same_text(name.as_str(), "..") {
        None
    } else {
        assert(path@.take(first + end) =~= up_to_name(path@));
        Some((first + end, name))
    }
}

/// The path under which a file is kept while it is incomplete.
pub fn partial_path(destination: &str) -> (r: String)
    ensures
        r@ == partial_of(destination@),
{
    let chars = chars_of(destination);
    match name_of(&chars) {
        Some((end, _)) => {
            let kept = text_of(&chars, 0, end);
            assert(kept@ =~= up_to_name(destination@));
            joined(kept.as_str(), ".preserve-part")
        },
        None => destination.to_owned(),
    }
}

/// Whether a path names a Windows Installer package.
pub fn is_installer_package(path: &str) -> (r: bool)
    ensures
        r == names_installer_package(path@),
{
    let chars = chars_of(path);
    match name_of(&chars) {
        Some((_, name)) => {
            let letters = chars_of(name.as_str());
            let mut dot: usize = letters.len();
            let ghost full = letters@;
            assert(full.take(dot as int) =~= full);
            while dot > 0 && letters[dot - 1] != '.'
                invariant
                    dot <= letters@.len(),
                    full == letters@,
                    last_dot(full) == last_dot(full.take(dot as int)),
                decreases dot,
            {
                assert(full.take(dot as int).drop_last() =~= full.take(dot - 1));
                assert(full.take(dot as int).last() == letters@[dot - 1]);
                dot = dot - 1;
            }
            if dot <= 1 {
                return false;
            }
            assert(last_dot(full) == Some((dot - 1) as nat));
            let ending = text_of(&letters, dot, letters.len());
            assert(ending@ =~= full.skip(dot as int));
            crate::text::eq_ignore_case(ending.as_str(), "msi")
        },
        None => false,
    }
}

/// Whether a text can stand as one segment of a path.
pub open spec fn is_segment(text: Seq<char>) -> bool {
    names_something(text) && forall|j: int|
        0 <= j < text.len() ==> !Separator::Path.divides(#[trigger] text[j])
}

/// Every segment of a path can stand as one segment.
proof fn lemma_segments_are_segments(path: Seq<char>)
    ensures
        forall|i: int|
            0 <= i < path_segments(path).len() ==> is_segment(#[trigger] path_segments(path)[i]),
{
    let full = pieces(path, Separator::Path);
    let kept = |piece: Seq<char>| names_something(piece);
    lemma_pieces_hold_no_separator(path, Separator::Path);
    assert forall|i: int| 0 <= i < path_segments(path).len() implies is_segment(
        #[trigger] path_segments(path)[i],
    ) by {
        full.lemma_filter_pred(kept, i);
        let segment = path_segments(path)[i];
        assert(full.filter(kept).contains(segment));
        full.lemma_filter_contains_rev(kept, segment);
        assert(full.contains(segment));
        let k = choose|k: int| 0 <= k < full.len() && full[k] == segment;
        assert forall|j: int| 0 <= j < segment.len() implies !Separator::Path.divides(
            #[trigger] segment[j],
        ) by {
            assert(!Separator::Path.divides(full[k][j]));
        }
    }
}

/// A text that can stand as one segment is the only segment of the path that it is.
pub proof fn lemma_one_segment(text: Seq<char>)
    requires
        is_segment(text),
    ensures
        path_segments(text) == seq![text],
{
    let kept = |piece: Seq<char>| names_something(piece);
    lemma_single_piece(text, Separator::Path);
    assert(seq![text] =~= Seq::<Seq<char>>::empty().push(text));
    Seq::<Seq<char>>::empty().lemma_filter_push(text, kept);
    reveal(Seq::filter);
    assert(Seq::<Seq<char>>::empty().filter(kept) =~= Seq::<Seq<char>>::empty());
}

/// The segments of a path around a separator are those of its two sides.
proof fn lemma_segments_around_separator(a: Seq<char>, c: char, b: Seq<char>)
    requires
        Separator::Path.divides(c),
    ensures
        path_segments(a.push(c) + b) == path_segments(a) + path_segments(b),
{
    let kept = |piece: Seq<char>| names_something(piece);
    lemma_pieces_around_separator(a, c, b, Separator::Path);
    Seq::filter_distributes_over_add(
        pieces(a, Separator::Path),
        pieces(b, Separator::Path),
        kept,
    );
}

/// Whether a path leads into a folder: it names the folder's own segments, and after them never
/// goes back to a parent folder.
pub open spec fn stays_below(root: Seq<char>, path: Seq<char>) -> bool {
    let base = path_segments(root);
    let all = path_segments(path);
    &&& base.len() <= all.len()
    &&& all.take(base.len() as int) == base
    &&& !all.skip(base.len() as int).contains(".."@)
}

/// The segments of texts, one text after the other.
spec fn segments_of_all(list: Seq<Seq<char>>) -> Seq<Seq<char>>
    decreases list.len(),
{
    if list.len() == 0 {
        Seq::empty()
    } else {
        segments_of_all(list.drop_last()) + path_segments(list.last())
    }
}

/// The segments of texts with backslashes between them are those of the texts.
proof fn lemma_segments_with_backslashes(list: Seq<Seq<char>>)
    ensures
        path_segments(with_backslashes(list)) == segments_of_all(list),
    decreases list.len(),
{
    if list.len() == 0 {
        lemma_no_segments();
    } else if list.len() == 1 {
        assert(segments_of_all(list.drop_last()) =~= Seq::<Seq<char>>::empty());
        assert(segments_of_all(list) =~= path_segments(list[0]));
    } else {
        let head = list.drop_last();
        lemma_segments_with_backslashes(head);
        assert(with_backslashes(list) =~= with_backslashes(head).push('\\') + list.last());
        lemma_segments_around_separator(with_backslashes(head), '\\', list.last());
    }
}

/// Splitting a text at backslashes and putting them back gives the text.
proof fn lemma_backslashes_put_back(text: Seq<char>)
    ensures
        with_backslashes(pieces(text, Separator::Backslash)) == text,
    decreases text.len(),
{
    let list = pieces(text, Separator::Backslash);
    if text.len() > 0 {
        let c = text.last();
        let before = pieces(text.drop_last(), Separator::Backslash);
        lemma_backslashes_put_back(text.drop_last());
        lemma_pieces_not_empty(text.drop_last(), Separator::Backslash);
        assert(list.drop_last() =~= if Separator::Backslash.divides(c) {
            before
        } else {
            before.drop_last()
        });
        if Separator::Backslash.divides(c) {
            assert(list.last() =~= Seq::<char>::empty());
            assert(with_backslashes(list) =~= text.drop_last().push(c));
        } else if before.len() == 1 {
            assert(with_backslashes(list) =~= before[0].push(c));
        } else {
            assert(list.last() =~= before.last().push(c));
            assert(with_backslashes(list) =~= with_backslashes(before).push(c));
        }
        assert(text =~= text.drop_last().push(c));
    } else {
        assert(with_backslashes(list) =~= text);
    }
}

/// Empty texts have no segments.
proof fn lemma_segments_of_full(list: Seq<Seq<char>>)
    ensures
        segments_of_all(list.filter(|piece: Seq<char>| piece.len() > 0)) == segments_of_all(list),
    decreases list.len(),
{
    let kept = |piece: Seq<char>| piece.len() > 0;
    if list.len() == 0 {
        reveal(Seq::filter);
        assert(list.filter(kept) =~= list);
    } else {
        let head = list.drop_last();
        lemma_segments_of_full(head);
        assert(list =~= head.push(list.last()));
        head.lemma_filter_push(list.last(), kept);
        if kept(list.last()) {
            let all = head.filter(kept).push(list.last());
            assert(all.drop_last() =~= head.filter(kept));
        } else {
            assert(list.last() =~= Seq::<char>::empty());
            lemma_no_segments();
            assert(segments_of_all(head) + Seq::<Seq<char>>::empty() =~= segments_of_all(head));
        }
    }
}

/// The segments of texts that are segments themselves are these texts.
proof fn lemma_segments_of_segments(list: Seq<Seq<char>>, more: Seq<Seq<char>>)
    requires
        forall|i: int| 0 <= i < more.len() ==> is_segment(#[trigger] more[i]),
    ensures
        segments_of_all(list + more) == segments_of_all(list) + more,
    decreases more.len(),
{
    if more.len() == 0 {
        assert(list + more =~= list);
        assert(segments_of_all(list) + more =~= segments_of_all(list));
    } else {
        let fewer = more.drop_last();
        assert(forall|i: int| 0 <= i < fewer.len() ==> fewer[i] == more[i]);
        lemma_segments_of_segments(list, fewer);
        assert((list + more).drop_last() =~= list + fewer);
        lemma_one_segment(more.last());
        assert(segments_of_all(list + more) =~= segments_of_all(list) + more);
    }
}

/// Names after which no parent folder follows stay.
proof fn lemma_names_after(names: Seq<Seq<char>>, more: Seq<Seq<char>>)
    requires
        !more.contains(".."@),
    ensures
        names_after(names, more) == names + more,
    decreases more.len(),
{
    if more.len() == 0 {
        assert(names + more =~= names);
    } else {
        let fewer = more.drop_last();
        assert forall|i: int| 0 <= i < fewer.len() implies fewer[i] != ".."@ by {
            assert(more.contains(more[i]));
        }
        assert(more.contains(more.last()));
        lemma_names_after(names, fewer);
        assert(names_after(names, more) =~= names + more);
    }
}

proof fn lemma_piece_end(path: Seq<char>, start: nat, separator: Separator)
    requires
        start <= path.len(),
    ensures
        start <= piece_end(path, start, separator) <= path.len(),
        piece_end(path, start, separator) < path.len() ==> separator.divides(
            path[piece_end(path, start, separator) as int],
        ),
    decreases path.len() - start,
{
    if start < path.len() && !separator.divides(path[start as int]) {
        lemma_piece_end(path, start + 1, separator);
    }
}

/// What a verbatim path starts with ends at a separator, or with the path.
proof fn lemma_prefix_of_verbatim(path: Seq<char>)
    requires
        is_verbatim(path),
    ensures
        prefix_length(path) <= path.len(),
        prefix_length(path) < path.len() ==> Separator::Path.divides(
            path[prefix_length(path) as int],
        ),
{
    let separator = Separator::Backslash;
    lemma_piece_end(path, 4, separator);
    if path.len() >= 8 {
        lemma_piece_end(path, 8, separator);
        let server = piece_end(path, 8, separator);
        if server < path.len() {
            lemma_piece_end(path, server + 1, separator);
        }
    }
}

/// A separator at the end of a text adds no segment.
proof fn lemma_trailing_separator(a: Seq<char>, c: char)
    requires
        Separator::Path.divides(c),
    ensures
        path_segments(a.push(c)) == path_segments(a),
{
    lemma_no_segments();
    let empty = Seq::<char>::empty();
    lemma_segments_around_separator(a, c, empty);
    assert(a.push(c) + empty =~= a.push(c));
    assert(path_segments(a) + path_segments(empty) =~= path_segments(a));
}

/// What is joined to a verbatim folder names the folder's segments and its own.
proof fn lemma_joined_to_verbatim(root: Seq<char>, relative: Seq<char>)
    requires
        is_verbatim(root),
        is_safe(relative),
    ensures
        path_segments(joined_to_verbatim(root, relative)) == path_segments(root) + path_segments(
            relative,
        ),
{
    let start = root.take(prefix_length(root) as int);
    let rest = body(root);
    let own = full_pieces(rest, Separator::Backslash);
    let more = path_segments(relative);
    let names = names_after(own, more);
    assert(path_segments(root) == path_segments(start) + path_segments(rest)) by {
        lemma_prefix_of_verbatim(root);
        lemma_no_segments();
        if prefix_length(root) < root.len() {
            let c = root[prefix_length(root) as int];
            assert(root =~= start.push(c) + rest);
            lemma_segments_around_separator(start, c, rest);
        } else {
            assert(root =~= start);
            assert(rest =~= Seq::<char>::empty());
            assert(path_segments(start) + path_segments(rest) =~= path_segments(start));
        }
    }
    assert(names == own + more && segments_of_all(names) == path_segments(rest) + more) by {
        lemma_segments_are_segments(relative);
        lemma_names_after(own, more);
        lemma_segments_of_segments(own, more);
        lemma_segments_of_backslashed(rest);
    }
    lemma_started_names(start, names);
    assert(path_segments(root) + more =~= path_segments(start) + (path_segments(rest) + more));
}

/// Splitting a text at backslashes alone loses none of its segments.
proof fn lemma_segments_of_backslashed(text: Seq<char>)
    ensures
        segments_of_all(full_pieces(text, Separator::Backslash)) == path_segments(text),
{
    lemma_segments_of_full(pieces(text, Separator::Backslash));
    lemma_segments_with_backslashes(pieces(text, Separator::Backslash));
    lemma_backslashes_put_back(text);
}

/// The segments of a start with names after it, with or without a last backslash where there are
/// none.
proof fn lemma_started_names(start: Seq<char>, names: Seq<Seq<char>>)
    ensures
        path_segments(start + seq!['\\'] + with_backslashes(names)) == path_segments(start)
            + segments_of_all(names),
        names.len() == 0 ==> path_segments(start + seq!['\\']) == path_segments(start)
            + segments_of_all(names),
        names.len() == 0 ==> path_segments(start) == path_segments(start) + segments_of_all(names),
{
    lemma_segments_with_backslashes(names);
    lemma_segments_around_separator(start, '\\', with_backslashes(names));
    assert(start + seq!['\\'] =~= start.push('\\'));
    lemma_trailing_separator(start, '\\');
    if names.len() == 0 {
        assert(path_segments(start) + Seq::<Seq<char>>::empty() =~= path_segments(start));
    }
}

/// A file of a manifest is placed below the folder it belongs to: the path that `safe_join`
/// yields names the folder's own segments, followed by those of the manifest path, and none of
/// the latter leads back to a parent folder. To a bare drive letter, which is no folder to look
/// below, the manifest path is appended as it is.
pub proof fn law_joined_path_stays_below(root: Seq<char>, relative: Seq<char>)
    requires
        is_safe(relative),
    ensures
        is_bare_drive(root) ==> joined_path(root, relative) == root + relative,
        !is_bare_drive(root) ==> path_segments(joined_path(root, relative)) == path_segments(root)
            + path_segments(relative) && stays_below(root, joined_path(root, relative)),
        !is_verbatim(root) ==> starts_with(joined_path(root, relative), root),
        !path_segments(relative).contains(".."@),
        forall|i: int|
            0 <= i < path_segments(relative).len() ==> is_segment(
                #[trigger] path_segments(relative)[i],
            ),
{
    let segments = path_segments(relative);
    let path = joined_path(root, relative);
    lemma_segments_are_segments(relative);
    assert((path_segments(root) + segments).take(path_segments(root).len() as int)
        =~= path_segments(root));
    assert((path_segments(root) + segments).skip(path_segments(root).len() as int) =~= segments);
    if is_verbatim(root) && relative.len() > 0 {
        lemma_joined_to_verbatim(root, relative);
    } else {
        assert(path.take(root.len() as int) =~= root);
        if needs_separator(root) {
            assert(path =~= root.push('\\') + relative);
            lemma_segments_around_separator(root, '\\', relative);
        } else if root.len() == 0 {
            lemma_no_segments();
            assert(root =~= Seq::<char>::empty());
            assert(path =~= relative);
            assert(path_segments(root) + segments =~= segments);
        } else if !is_bare_drive(root) {
            let c = root.last();
            assert(root =~= root.drop_last().push(c));
            assert(path =~= root.drop_last().push(c) + relative);
            lemma_segments_around_separator(root.drop_last(), c, relative);
            lemma_trailing_separator(root.drop_last(), c);
        }
    }
}

/// Appending to a text a word without separators makes its last segment longer, or adds one.
proof fn lemma_appended_word(text: Seq<char>, word: Seq<char>)
    requires
        word.len() > 2,
        forall|j: int| 0 <= j < word.len() ==> !Separator::Path.divides(#[trigger] word[j]),
    ensures
        path_segments(text + word).len() > 0,
        path_segments(text + word).last().len() > 2,
        path_segments(text + word).len() >= path_segments(text).len(),
        path_segments(text + word).len() <= path_segments(text).len() + 1,
        forall|i: int|
            0 <= i < path_segments(text + word).len() - 1 ==> (#[trigger] path_segments(
                text + word,
            )[i]) == path_segments(text)[i],
{
    let kept = |piece: Seq<char>| names_something(piece);
    let list = pieces(text, Separator::Path);
    lemma_pieces_not_empty(text, Separator::Path);
    lemma_pieces_of_appended(text, word);
    reveal_strlit(".");
    assert("."@.len() == 1);
    assert((list.last() + word).len() == list.last().len() + word.len());
    assert(names_something(list.last() + word));
    list.drop_last().lemma_filter_push(list.last() + word, kept);
    assert(list =~= list.drop_last().push(list.last()));
    list.drop_last().lemma_filter_push(list.last(), kept);
    let head = list.drop_last().filter(kept);
    assert(path_segments(text + word) =~= head.push(list.last() + word));
    assert(head.push(list.last() + word).drop_last() =~= head);
    assert(head.push(list.last()).drop_last() =~= head);
}

proof fn lemma_pieces_of_appended(text: Seq<char>, word: Seq<char>)
    requires
        forall|j: int| 0 <= j < word.len() ==> !Separator::Path.divides(#[trigger] word[j]),
    ensures
        pieces(text + word, Separator::Path) == pieces(text, Separator::Path).drop_last().push(
            pieces(text, Separator::Path).last() + word,
        ),
    decreases word.len(),
{
    let list = pieces(text, Separator::Path);
    lemma_pieces_not_empty(text, Separator::Path);
    if word.len() == 0 {
        assert(text + word =~= text);
        assert(list.last() + word =~= list.last());
        assert(list.drop_last().push(list.last()) =~= list);
    } else {
        let shorter = word.drop_last();
        assert((text + word).drop_last() =~= text + shorter);
        assert((text + word).last() == word[word.len() - 1]);
        lemma_pieces_of_appended(text, shorter);
        let before = pieces(text + shorter, Separator::Path);
        assert(before.drop_last() =~= list.drop_last());
        assert((list.last() + shorter).push(word.last()) =~= list.last() + word);
    }
}

/// Leaving out what follows the last name of a path takes no segment away.
proof fn lemma_trimmed_keeps_segments(start: Seq<char>, names: Seq<char>, verbatim: bool)
    requires
        trimmed(names, verbatim).len() > 0,
    ensures
        path_segments(start + trimmed(names, verbatim)) == path_segments(start + names),
    decreases names.len(),
{
    if trimmed(names, verbatim) != names {
        let fewer = names.drop_last();
        let c = names.last();
        lemma_trimmed_keeps_segments(start, fewer, verbatim);
        assert(start + names =~= (start + fewer).push(c));
        if Separator::Path.divides(c) {
            lemma_trailing_separator(start + fewer, c);
        } else {
            assert(c == '.' && fewer.len() > 0);
            let d = fewer.last();
            let even_fewer = fewer.drop_last();
            assert(start + fewer =~= (start + even_fewer).push(d));
            lemma_trailing_separator(start + even_fewer, d);
            reveal_strlit(".");
            assert((start + fewer).push(c) =~= (start + even_fewer).push(d) + "."@);
            lemma_segments_around_separator(start + even_fewer, d, "."@);
            lemma_dot_has_no_segments();
            assert(path_segments(start + even_fewer) + path_segments("."@) =~= path_segments(
                start + even_fewer,
            ));
        }
    }
}

proof fn lemma_dot_has_no_segments()
    ensures
        path_segments("."@) == Seq::<Seq<char>>::empty(),
{
    let kept = |piece: Seq<char>| names_something(piece);
    reveal_strlit(".");
    lemma_single_piece("."@, Separator::Path);
    assert(seq!["."@] =~= Seq::<Seq<char>>::empty().push("."@));
    Seq::<Seq<char>>::empty().lemma_filter_push("."@, kept);
    reveal(Seq::filter);
    assert(Seq::<Seq<char>>::empty().filter(kept) =~= Seq::<Seq<char>>::empty());
}

proof fn lemma_prefix_within(path: Seq<char>)
    ensures
        prefix_length(path) <= path.len(),
{
    if is_verbatim(path) {
        lemma_prefix_of_verbatim(path);
    } else if path.len() >= 2 {
        let separator = Separator::Path;
        lemma_piece_end(path, 2, separator);
        let server = piece_end(path, 2, separator);
        if server < path.len() {
            lemma_piece_end(path, server + 1, separator);
        }
        if path.len() >= 4 {
            lemma_piece_end(path, 4, separator);
        }
    }
}

/// A file that is still incomplete is kept in the same folder as the file: its path leads into
/// every folder that the file's own path leads into by at least one name.
pub proof fn law_partial_path_stays_below(root: Seq<char>, path: Seq<char>)
    requires
        stays_below(root, path),
        path_segments(path).len() > path_segments(root).len(),
    ensures
        stays_below(root, partial_of(path)),
{
    if file_name(path) is Some {
        let word = ".preserve-part"@;
        let kept = up_to_name(path);
        let base = path_segments(root);
        let before = path_segments(path);
        let after = path_segments(kept + word);
        let start = path.take(start_length(path) as int);
        lemma_prefix_within(path);
        assert(start + body(path) =~= path);
        lemma_trimmed_keeps_segments(start, body(path), is_verbatim(path));
        reveal_strlit(".preserve-part");
        reveal_strlit("..");
        lemma_appended_word(kept, word);
        assert(path_segments(kept) == before);
        assert forall|i: int| 0 <= i < base.len() implies after[i] == base[i] by {
            assert(before.take(base.len() as int)[i] == before[i]);
        }
        assert(after.take(base.len() as int) =~= base);
        let rest = after.skip(base.len() as int);
        if rest.contains(".."@) {
            let k = choose|k: int| 0 <= k < rest.len() && rest[k] == ".."@;
            let at = k + base.len();
            assert(after[at] == ".."@);
            if at < after.len() - 1 {
                assert(before[at] == ".."@);
                assert(before.skip(base.len() as int)[k] == ".."@);
            }
        }
    }
}

proof fn lemma_no_segments()
    ensures
        path_segments(Seq::<char>::empty()) == Seq::<Seq<char>>::empty(),
{
    let empty = Seq::<char>::empty();
    let kept = |piece: Seq<char>| names_something(piece);
    let full = pieces(empty, Separator::Path);
    assert(full =~= Seq::<Seq<char>>::empty().push(empty));
    Seq::<Seq<char>>::empty().lemma_filter_push(empty, kept);
    reveal(Seq::filter);
    assert(Seq::<Seq<char>>::empty().filter(kept) =~= Seq::<Seq<char>>::empty());
}

/// A plain name is safe to be placed below a folder.
pub proof fn lemma_plain_name_is_safe(name: Seq<char>)
    requires
        is_segment(name),
        name.len() > 2,
        !has_drive(name),
    ensures
        is_safe(name),
{
    lemma_one_segment(name);
    reveal_strlit("..");
    if path_segments(name).contains(".."@) {
        assert(seq![name].contains(".."@));
        assert(name == ".."@);
    }
}

/// A path whose last segment is longer is no bare drive letter.
pub proof fn lemma_not_a_bare_drive(path: Seq<char>)
    requires
        path_segments(path).len() > 0,
        path_segments(path).last().len() > 2,
    ensures
        !is_bare_drive(path),
{
    if is_bare_drive(path) {
        reveal_strlit(".");
        assert(is_segment(path));
        lemma_one_segment(path);
    }
}

/// What leads into a folder within a folder leads into the outer one.
pub proof fn lemma_stays_below_outer(outer: Seq<char>, inner: Seq<char>, path: Seq<char>)
    requires
        stays_below(outer, inner),
        stays_below(inner, path),
    ensures
        stays_below(outer, path),
{
    let o = path_segments(outer);
    let i = path_segments(inner);
    let p = path_segments(path);
    assert(p.take(o.len() as int) =~= o) by {
        assert(p.take(i.len() as int).take(o.len() as int) =~= p.take(o.len() as int));
    }
    let rest = p.skip(o.len() as int);
    if rest.contains(".."@) {
        let k = choose|k: int| 0 <= k < rest.len() && rest[k] == ".."@;
        let at = k + o.len();
        assert(p[at] == ".."@);
        if at < i.len() {
            assert(p.take(i.len() as int)[at] == i[at]);
            assert(i.skip(o.len() as int)[k] == ".."@);
        } else {
            assert(p.skip(i.len() as int)[at - i.len()] == ".."@);
        }
    }
}

/// The incomplete form of a file that has a name is another path than the file's own, and two
/// files share one only if their paths name the same.
pub proof fn law_partial_path_is_apart(a: Seq<char>, b: Seq<char>)
    requires
        file_name(a) is Some,
        file_name(b) is Some,
    ensures
        partial_of(a).len() > up_to_name(a).len(),
        partial_of(a) == partial_of(b) ==> up_to_name(a) == up_to_name(b),
{
    reveal_strlit(".preserve-part");
    let word = ".preserve-part"@;
    let first = up_to_name(a);
    let second = up_to_name(b);
    assert(partial_of(a) == first + word);
    assert(partial_of(b) == second + word);
    if partial_of(a) == partial_of(b) {
        assert((first + word).len() == first.len() + word.len());
        assert((second + word).len() == second.len() + word.len());
        assert((first + word).take(first.len() as int) =~= first);
        assert((second + word).take(first.len() as int) =~= second);
    }
}

/// A piece ends at the first separator, or with the path.
proof fn lemma_piece_ends_at(path: Seq<char>, start: nat, end: nat, separator: Separator)
    requires
        start <= end <= path.len(),
        forall|j: int| start <= j < end ==> !separator.divides(#[trigger] path[j]),
        end < path.len() ==> separator.divides(path[end as int]),
    ensures
        piece_end(path, start, separator) == end,
    decreases end - start,
{
    if start < end {
        assert(!separator.divides(path[start as int]));
        lemma_piece_ends_at(path, start + 1, end, separator);
    }
}

/// A path is safe exactly if it does not start at a root or with a drive letter, and no piece of it
/// between separators is the parent folder.
pub proof fn law_safe_paths(relative: Seq<char>)
    ensures
        is_safe(relative) <==> {
            &&& relative.len() > 0 ==> relative[0] != '/' && relative[0] != '\\'
            &&& !(relative.len() >= 2 && relative[1] == ':' && (('a' <= relative[0] && relative[0]
                <= 'z') || ('A' <= relative[0] && relative[0] <= 'Z')))
            &&& !pieces(relative, Separator::Path).contains(".."@)
        },
{
    let full = pieces(relative, Separator::Path);
    let kept = |piece: Seq<char>| names_something(piece);
    reveal_strlit(".");
    reveal_strlit("..");
    assert("."@.len() == 1 && ".."@.len() == 2);
    assert(kept(".."@));
    if full.contains(".."@) {
        let k = choose|k: int| 0 <= k < full.len() && full[k] == ".."@;
        full.lemma_filter_contains(kept, k);
    }
    if path_segments(relative).contains(".."@) {
        full.lemma_filter_contains_rev(kept, ".."@);
    }
}

/// What a path starts with before its first root or name: a drive letter with its colon; a server and
/// its share after two separators; nothing at all where there is neither.
pub proof fn law_starts_of_paths(
    path: Seq<char>,
    first: char,
    second: char,
    server: Seq<char>,
    third: char,
    share: Seq<char>,
    rest: Seq<char>,
)
    requires
        first == '/' || first == '\\',
        second == '/' || second == '\\',
        third == '/' || third == '\\',
        server.len() > 0,
        share.len() > 0,
        server != "."@,
        server != "?"@,
        forall|j: int| 0 <= j < server.len() ==> #[trigger] server[j] != '/' && server[j] != '\\',
        forall|j: int| 0 <= j < share.len() ==> #[trigger] share[j] != '/' && share[j] != '\\',
        rest.len() > 0 ==> rest[0] == '/' || rest[0] == '\\',
    ensures
        prefix_length(seq![first, second] + server + seq![third] + share + rest) == 2 + server.len()
            + 1 + share.len(),
        path.len() >= 2 && path[1] == ':' && (('a' <= path[0] && path[0] <= 'z') || ('A' <= path[0]
            && path[0] <= 'Z')) ==> prefix_length(path) == 2,
        path.len() > 0 && path[0] != '/' && path[0] != '\\' && !(path.len() >= 2 && path[1] == ':')
            ==> prefix_length(path) == 0,
        path.len() > 1 && (path[0] == '/' || path[0] == '\\') && path[1] != '/' && path[1] != '\\'
            && path[1] != ':' ==> prefix_length(path) == 0,
        path.len() <= 1 ==> prefix_length(path) == 0,
{
    let p = seq![first, second] + server + seq![third] + share + rest;
    let n = server.len();
    let m = share.len();
    assert(p[0] == first && p[1] == second);
    assert forall|j: int| 2 <= j < 2 + n implies p[j] == server[j - 2] by {}
    assert(p[(2 + n) as int] == third);
    assert forall|j: int| 3 + n <= j < 3 + n + m implies p[j] == share[j - 3 - n] by {}
    if rest.len() > 0 {
        assert(p[(3 + n + m) as int] == rest[0]);
    }
    let start = seq!['\\', '\\', '?', '\\'];
    reveal_strlit("?");
    reveal_strlit(".");
    if starts_with(p, start) {
        assert(p.take(4)[2] == start[2] && p.take(4)[3] == start[3]);
        if n > 1 {
            assert(p[3] == server[1]);
        } else {
            assert(p[2] == server[0]);
            assert(server =~= "?"@);
        }
    }
    if p[2] == '.' && Separator::Path.divides(p[3]) {
        if n > 1 {
            assert(p[3] == server[1]);
        } else {
            assert(p[2] == server[0]);
            assert(server =~= "."@);
        }
    }
    assert forall|j: int| 2 <= j < 2 + n implies !Separator::Path.divides(#[trigger] p[j]) by {
        assert(p[j] == server[j - 2]);
    }
    assert forall|j: int| 3 + n <= j < 3 + n + m implies !Separator::Path.divides(
        #[trigger] p[j],
    ) by {
        assert(p[j] == share[j - 3 - n]);
    }
    lemma_piece_ends_at(p, 2, (2 + n) as nat, Separator::Path);
    lemma_piece_ends_at(p, (3 + n) as nat, (3 + n + m) as nat, Separator::Path);
    if path.len() >= 2 {
        if starts_with(path, start) {
            assert(path.take(4)[0] == start[0] && path.take(4)[1] == start[1]);
        }
    } else {
        assert(!starts_with(path, start));
    }
}

/// Joining appends a path to a folder, with a backslash between them unless the folder ends in a
/// separator or is a bare drive letter or nothing. A path with a drive letter of its own takes the
/// folder's place, and one that starts at a root starts at the root of the folder's drive.
pub proof fn law_joined_path(root: Seq<char>, path: Seq<char>)
    requires
        !is_verbatim(root),
    ensures
        prefix_length(path) > 0 ==> joined_path(root, path) == path,
        prefix_length(path) == 0 && path.len() > 0 && (path[0] == '/' || path[0] == '\\')
            ==> joined_path(root, path) == root.take(prefix_length(root) as int) + path,
        prefix_length(path) == 0 && !(path.len() > 0 && (path[0] == '/' || path[0] == '\\')) ==> {
            let ends = root.len() == 0 || root.last() == '/' || root.last() == '\\' || (root.len() == 2
                && root[1] == ':' && (('a' <= root[0] && root[0] <= 'z') || ('A' <= root[0]
                && root[0] <= 'Z')));
            &&& ends ==> joined_path(root, path) == root + path
            &&& !ends ==> joined_path(root, path) == root.push('\\') + path
        },
{
    assert(root + seq!['\\'] + path =~= root.push('\\') + path);
}

/// Where the last piece of a text starts.
proof fn lemma_last_piece(before: Seq<char>, name: Seq<char>, separator: Separator)
    requires
        before.len() > 0 ==> separator.divides(before.last()),
        forall|j: int| 0 <= j < name.len() ==> !separator.divides(#[trigger] name[j]),
    ensures
        last_piece(before + name, separator) == before.len(),
    decreases name.len(),
{
    if name.len() == 0 {
        assert(before + name =~= before);
    } else {
        assert((before + name).drop_last() =~= before + name.drop_last());
        assert((before + name).last() == name[name.len() - 1]);
        lemma_last_piece(before, name.drop_last(), separator);
    }
}

/// The last dot of a name that has a stem and an ending.
proof fn lemma_last_dot(stem: Seq<char>, ending: Seq<char>)
    requires
        forall|j: int| 0 <= j < ending.len() ==> #[trigger] ending[j] != '.',
    ensures
        last_dot(stem.push('.') + ending) == Some(stem.len()),
    decreases ending.len(),
{
    let name = stem.push('.') + ending;
    if ending.len() == 0 {
        assert(name =~= stem.push('.'));
    } else {
        assert(name.last() == ending[ending.len() - 1]);
        assert(name.drop_last() =~= stem.push('.') + ending.drop_last());
        lemma_last_dot(stem, ending.drop_last());
    }
}

proof fn lemma_no_later_dot(name: Seq<char>)
    requires
        forall|j: int| 1 <= j < name.len() ==> #[trigger] name[j] != '.',
    ensures
        last_dot(name) matches Some(dot) ==> dot == 0,
    decreases name.len(),
{
    if name.len() > 1 {
        assert(name.last() == name[name.len() - 1]);
        assert forall|j: int| 1 <= j < name.drop_last().len() implies #[trigger] name.drop_last()[j]
            != '.' by {
            assert(name.drop_last()[j] == name[j]);
        }
        lemma_no_later_dot(name.drop_last());
    } else if name.len() == 1 {
        assert(last_dot(name.drop_last()) is None);
    }
}

/// A path that ends in a name after a separator has that name, and is kept under another while it is
/// incomplete: with an ending more.
pub proof fn law_file_is_kept_under_another_name(
    folder: Seq<char>,
    separator: char,
    name: Seq<char>,
)
    requires
        separator == '\\' || (separator == '/' && !is_verbatim(folder.push(separator) + name)),
        prefix_length(folder.push(separator) + name) <= folder.len(),
        name.len() > 0,
        name != "."@,
        name != ".."@,
        forall|j: int| 0 <= j < name.len() ==> #[trigger] name[j] != '/' && name[j] != '\\',
    ensures
        file_name(folder.push(separator) + name) == Some(name),
        partial_of(folder.push(separator) + name) == folder.push(separator) + name
            + ".preserve-part"@,
{
    let path = folder.push(separator) + name;
    let prefix = prefix_length(path);
    let start = start_length(path);
    let verbatim = is_verbatim(path);
    let by = separator_of(path);
    let names = body(path);
    let before = folder.push(separator).skip(start as int);
    assert(start <= folder.len() + 1);
    assert(names =~= before + name);
    if before.len() > 0 {
        assert(before.last() == separator);
    }
    assert(names.last() == name[name.len() - 1]);
    if names.len() >= 2 && name.len() >= 2 {
        assert(names[names.len() - 2] == name[name.len() - 2]);
    }
    reveal_strlit(".");
    if name.len() == 1 && name[0] == '.' {
        assert(name =~= "."@);
    }
    assert(trimmed(names, verbatim) == names);
    lemma_last_piece(before, name, by);
    assert(names.skip(before.len() as int) =~= name);
    assert(up_to_name(path) =~= path);
}

/// A path names a Windows Installer package exactly if its name has a stem, and after its last dot
/// the letters `msi`, each in either case.
pub proof fn law_packages_are_known_by_their_ending(
    folder: Seq<char>,
    separator: char,
    stem: Seq<char>,
    ending: Seq<char>,
)
    requires
        separator == '\\' || (separator == '/' && !is_verbatim(
            folder.push(separator) + (stem.push('.') + ending),
        )),
        prefix_length(folder.push(separator) + (stem.push('.') + ending)) <= folder.len(),
        stem.len() > 0,
        stem.push('.') + ending != ".."@,
        forall|j: int| 0 <= j < stem.len() ==> #[trigger] stem[j] != '/' && stem[j] != '\\',
        forall|j: int|
            0 <= j < ending.len() ==> #[trigger] ending[j] != '/' && ending[j] != '\\' && ending[j]
                != '.',
    ensures
        names_installer_package(folder.push(separator) + (stem.push('.') + ending)) <==> ending.len()
            == 3 && (ending[0] == 'm' || ending[0] == 'M') && (ending[1] == 's' || ending[1] == 'S')
            && (ending[2] == 'i' || ending[2] == 'I'),
{
    let name = stem.push('.') + ending;
    assert forall|j: int| 0 <= j < name.len() implies #[trigger] name[j] != '/' && name[j]
        != '\\' by {
        if j < stem.len() {
            assert(name[j] == stem[j]);
        } else if j > stem.len() {
            assert(name[j] == ending[j - stem.len() - 1]);
        }
    }
    reveal_strlit(".");
    assert("."@.len() == 1);
    law_file_is_kept_under_another_name(folder, separator, name);
    lemma_last_dot(stem, ending);
    assert(name.skip(stem.len() as int + 1) =~= ending);
    reveal_strlit("msi");
    let msi = "msi"@;
    crate::text::law_case_does_not_matter(ending, msi);
    assert(msi.len() == 3 && msi[0] == 'm' && msi[1] == 's' && msi[2] == 'i');
    if ending.len() == 3 {
        assert(crate::text::same_letter(ending[0], msi[0]) <==> (ending[0] == 'm' || ending[0]
            == 'M'));
        assert(crate::text::same_letter(ending[1], msi[1]) <==> (ending[1] == 's' || ending[1]
            == 'S'));
        assert(crate::text::same_letter(ending[2], msi[2]) <==> (ending[2] == 'i' || ending[2]
            == 'I'));
    }
}

/// A path whose name has no dot, or one only at its start, names no Windows Installer package.
pub proof fn law_names_without_ending_are_no_packages(
    folder: Seq<char>,
    separator: char,
    name: Seq<char>,
)
    requires
        separator == '\\' || (separator == '/' && !is_verbatim(folder.push(separator) + name)),
        prefix_length(folder.push(separator) + name) <= folder.len(),
        name.len() > 0,
        name != "."@,
        forall|j: int| 0 <= j < name.len() ==> #[trigger] name[j] != '/' && name[j] != '\\',
        forall|j: int| 1 <= j < name.len() ==> #[trigger] name[j] != '.',
    ensures
        !names_installer_package(folder.push(separator) + name),
{
    reveal_strlit("..");
    if name == ".."@ {
        assert(name[1] == '.');
    }
    law_file_is_kept_under_another_name(folder, separator, name);
    lemma_no_later_dot(name);
}

/// Names that follow others one after the other: each is added, and a parent folder takes the last
/// one away, if that is a proper name.
pub proof fn law_parent_folder_takes_a_name_away(
    names: Seq<Seq<char>>,
    more: Seq<Seq<char>>,
    name: Seq<char>,
)
    requires
        name != "."@,
        name != ".."@,
    ensures
        names_after(names, Seq::empty()) == names,
        names_after(names, more.push(name)) == names_after(names, more).push(name),
        names_after(names, more.push(name).push(".."@)) == names_after(names, more),
        names_after(Seq::empty(), seq![".."@]) == Seq::<Seq<char>>::empty(),
{
    assert(more.push(name).drop_last() =~= more);
    assert(more.push(name).push(".."@).drop_last() =~= more.push(name));
    assert(names_after(names, more).push(name).drop_last() =~= names_after(names, more));
    assert(seq![".."@].drop_last() =~= Seq::<Seq<char>>::empty());
    assert(names_after(Seq::<Seq<char>>::empty(), Seq::<Seq<char>>::empty()) =~= Seq::<
        Seq<char>,
    >::empty());
}

/// What is joined to a folder in verbatim form is put together anew: what the folder starts with, and
/// after it the names, each after a backslash.
pub proof fn law_verbatim_folders_are_put_together(root: Seq<char>, path: Seq<char>)
    requires
        starts_with(root, seq!['\\', '\\', '?', '\\']),
        prefix_length(path) == 0,
        path.len() > 0,
    ensures
        ({
            let start = root.take(prefix_length(root) as int);
            let rooted = path[0] == '/' || path[0] == '\\';
            let own = full_pieces(body(root), Separator::Backslash);
            let names = if rooted {
                names_after(Seq::empty(), path_segments(path))
            } else {
                names_after(own, path_segments(path))
            };
            &&& names.len() > 0 ==> joined_path(root, path) == start + seq!['\\'] + with_backslashes(
                names,
            )
            &&& names.len() == 0 && (rooted || start_length(root) > prefix_length(root))
                ==> joined_path(root, path) == start + seq!['\\']
            &&& names.len() == 0 && !rooted && start_length(root) == prefix_length(root)
                ==> joined_path(root, path) == start
        }),
{
}

/// Names in a row stand with one backslash between each two.
pub proof fn law_backslashes_between_names(names: Seq<Seq<char>>, name: Seq<char>)
    ensures
        with_backslashes(seq![name]) == name,
        names.len() > 0 ==> with_backslashes(names.push(name)) == with_backslashes(names).push('\\')
            + name,
{
    assert(names.push(name).drop_last() =~= names);
    assert(with_backslashes(names) + seq!['\\'] + name =~= with_backslashes(names).push('\\') + name);
}

/// The folders and the file that a path names are its pieces between separators, but for those that
/// are empty and those that are the current folder.
pub proof fn law_segments_stand_between_separators(a: Seq<char>, c: char, b: Seq<char>)
    requires
        c == '/' || c == '\\',
    ensures
        path_segments(a.push(c) + b) == path_segments(a) + path_segments(b),
        (forall|j: int| 0 <= j < a.len() ==> #[trigger] a[j] != '/' && a[j] != '\\')
            ==> path_segments(a) == if a.len() == 0 || a == "."@ {
            Seq::empty()
        } else {
            seq![a]
        },
{
    lemma_segments_around_separator(a, c, b);
    if forall|j: int| 0 <= j < a.len() ==> #[trigger] a[j] != '/' && a[j] != '\\' {
        if a.len() == 0 {
            assert(a =~= Seq::<char>::empty());
            lemma_no_segments();
        } else if a == "."@ {
            lemma_dot_has_no_segments();
        } else {
            assert(is_segment(a));
            lemma_one_segment(a);
        }
    }
}

/// What a path in verbatim form starts with: a drive letter with its colon, where that is all or a
/// separator follows; a server and its share; or else everything up to the next backslash. So does
/// one that starts with a device, up to the next separator.
pub proof fn law_starts_of_verbatim_paths(
    letter: char,
    name: Seq<char>,
    share: Seq<char>,
    rest: Seq<char>,
)
    requires
        ('a' <= letter && letter <= 'z') || ('A' <= letter && letter <= 'Z'),
        name.len() > 0,
        share.len() > 0,
        forall|j: int| 0 <= j < name.len() ==> #[trigger] name[j] != '/' && name[j] != '\\',
        forall|j: int| 0 <= j < share.len() ==> #[trigger] share[j] != '/' && share[j] != '\\',
        rest.len() > 0 ==> rest[0] == '\\',
    ensures
        prefix_length(seq!['\\', '\\', '?', '\\', letter, ':'] + rest) == 6,
        prefix_length(
            seq!['\\', '\\', '?', '\\', 'U', 'N', 'C', '\\'] + name + seq!['\\'] + share + rest,
        ) == 8 + name.len() + 1 + share.len(),
        name != seq!['U', 'N', 'C'] && name[1] != ':' ==> prefix_length(
            seq!['\\', '\\', '?', '\\'] + name + rest,
        ) == 4 + name.len(),
        prefix_length(seq!['\\', '\\', '.', '\\'] + name + rest) == 4 + name.len(),
{
    let start = seq!['\\', '\\', '?', '\\'];
    let drive = seq!['\\', '\\', '?', '\\', letter, ':'] + rest;
    assert(drive.take(4) =~= start);
    assert(drive.skip(4)[0] == letter && drive.skip(4)[1] == ':');
    if rest.len() > 0 {
        assert(drive[6] == rest[0]);
    }
    if drive.len() >= 8 {
        assert(drive.subrange(4, 7)[1] == ':');
        assert(seq!['U', 'N', 'C'][1] == 'N');
    }
    let n = name.len();
    let m = share.len();
    let unc = seq!['\\', '\\', '?', '\\', 'U', 'N', 'C', '\\'] + name + seq!['\\'] + share + rest;
    assert(unc.take(4) =~= start);
    assert(unc.subrange(4, 7) =~= seq!['U', 'N', 'C']);
    assert forall|j: int| 8 <= j < 8 + n implies !Separator::Backslash.divides(
        #[trigger] unc[j],
    ) by {
        assert(unc[j] == name[j - 8]);
    }
    assert forall|j: int| 9 + n <= j < 9 + n + m implies !Separator::Backslash.divides(
        #[trigger] unc[j],
    ) by {
        assert(unc[j] == share[j - 9 - n]);
    }
    assert(unc[(8 + n) as int] == '\\');
    if rest.len() > 0 {
        assert(unc[(9 + n + m) as int] == rest[0]);
    }
    lemma_piece_ends_at(unc, 8, (8 + n) as nat, Separator::Backslash);
    lemma_piece_ends_at(unc, (9 + n) as nat, (9 + n + m) as nat, Separator::Backslash);
    let other = seq!['\\', '\\', '?', '\\'] + name + rest;
    assert(other.take(4) =~= start);
    assert forall|j: int| 4 <= j < 4 + n implies other[j] == name[j - 4] by {}
    assert forall|j: int| 4 <= j < 4 + n implies !Separator::Backslash.divides(
        #[trigger] other[j],
    ) by {
        assert(other[j] == name[j - 4]);
    }
    if rest.len() > 0 {
        assert(other[(4 + n) as int] == rest[0]);
    }
    lemma_piece_ends_at(other, 4, (4 + n) as nat, Separator::Backslash);
    if name != seq!['U', 'N', 'C'] && other.len() >= 8 && other.subrange(4, 7) == seq![
        'U',
        'N',
        'C',
    ] && Separator::Path.divides(other[7]) {
        let word = other.subrange(4, 7);
        assert(word[0] == 'U' && word[1] == 'N' && word[2] == 'C');
        if n > 3 {
            assert(other[7] == name[3]);
        } else if n == 3 {
            assert(name =~= seq!['U', 'N', 'C']);
        } else {
            assert(other[(4 + n) as int] == '\\');
            assert(word[n as int] == '\\');
        }
    }
    if has_drive(other.skip(4)) {
        assert(other.skip(4)[1] == ':');
        if n > 1 {
            assert(other[5] == name[1]);
        } else {
            assert(other[5] == rest[0]);
        }
    }
    let device = seq!['\\', '\\', '.', '\\'] + name + rest;
    assert forall|j: int| 4 <= j < 4 + n implies !Separator::Path.divides(#[trigger] device[j]) by {
        assert(device[j] == name[j - 4]);
    }
    if rest.len() > 0 {
        assert(device[(4 + n) as int] == rest[0]);
    }
    lemma_piece_ends_at(device, 4, (4 + n) as nat, Separator::Path);
    if starts_with(device, start) {
        assert(device.take(4)[2] == start[2]);
    }
}

/// Separators and current folders after the last name of a path do not matter, and a path that ends
/// in a parent folder, or has no name at all, is kept as it is.
pub proof fn law_what_follows_the_last_name(
    names: Seq<char>,
    separator: char,
    path: Seq<char>,
)
    requires
        separator == '/' || separator == '\\',
    ensures
        trimmed(names.push(separator), false) == trimmed(names, false),
        trimmed(names.push(separator).push('.'), false) == trimmed(names, false),
        trimmed(names.push('\\'), true) == trimmed(names, true),
        trimmed(Seq::empty(), true).len() == 0,
        file_name(path) is None ==> partial_of(path) == path,
        file_name(path) matches Some(name) ==> name.len() > 0 && name != "."@ && name != ".."@,
{
    assert(names.push(separator).drop_last() =~= names);
    assert(names.push('\\').drop_last() =~= names);
    let longer = names.push(separator).push('.');
    assert(longer.drop_last() =~= names.push(separator));
    assert(longer[longer.len() - 2] == separator);
    assert(trimmed(longer, false) == trimmed(names.push(separator), false));
    assert(trimmed(names.push(separator), false) == trimmed(names, false));
}

/// A path that ends in a parent folder names no file.
pub proof fn law_parent_folder_is_no_file(folder: Seq<char>, separator: char)
    requires
        separator == '\\' || (separator == '/' && !is_verbatim(folder.push(separator) + ".."@)),
        prefix_length(folder.push(separator) + ".."@) <= folder.len(),
    ensures
        file_name(folder.push(separator) + ".."@) is None,
        partial_of(folder.push(separator) + ".."@) == folder.push(separator) + ".."@,
{
    let name = ".."@;
    reveal_strlit("..");
    let path = folder.push(separator) + name;
    let start = start_length(path);
    let verbatim = is_verbatim(path);
    let names = body(path);
    let before = folder.push(separator).skip(start as int);
    assert(start <= folder.len() + 1);
    assert(names =~= before + name);
    if before.len() > 0 {
        assert(before.last() == separator);
    }
    assert(names.last() == '.' && names[names.len() - 2] == '.');
    assert(trimmed(names, verbatim) == names);
    lemma_last_piece(before, name, separator_of(path));
    assert(names.skip(before.len() as int) =~= name);
}

/// A server without a share after it is no start of a path; in verbatim form it is.
pub proof fn law_server_without_a_share(
    first: char,
    second: char,
    server: Seq<char>,
    third: char,
    rest: Seq<char>,
)
    requires
        first == '/' || first == '\\',
        second == '/' || second == '\\',
        third == '/' || third == '\\',
        server.len() > 0,
        server != "."@,
        server != "?"@,
        forall|j: int| 0 <= j < server.len() ==> #[trigger] server[j] != '/' && server[j] != '\\',
        rest.len() > 0 ==> rest[0] == '/' || rest[0] == '\\',
    ensures
        prefix_length(seq![first, second] + server) == 0,
        prefix_length(seq![first, second] + server + seq![third] + rest) == 0,
        prefix_length(seq!['\\', '\\', '?', '\\', 'U', 'N', 'C', '\\'] + server) == 8
            + server.len(),
        rest.len() == 0 || rest[0] == '\\' ==> prefix_length(
            seq!['\\', '\\', '?', '\\', 'U', 'N', 'C', '\\'] + server + seq!['\\'] + rest,
        ) == 8 + server.len(),
{
    let n = server.len();
    let start = seq!['\\', '\\', '?', '\\'];
    reveal_strlit("?");
    reveal_strlit(".");
    let bare = seq![first, second] + server;
    let open = seq![first, second] + server + seq![third] + rest;
    assert forall|j: int| 2 <= j < 2 + n implies bare[j] == server[j - 2] && open[j] == server[j
        - 2] by {}
    assert(open[(2 + n) as int] == third);
    if rest.len() > 0 {
        assert(open[(3 + n) as int] == rest[0]);
    }
    if n == 1 {
        assert(server[0] == '?' ==> server =~= "?"@);
        assert(server[0] == '.' ==> server =~= "."@);
    } else {
        assert(bare[3] == server[1] && open[3] == server[1]);
    }
    assert(bare[2] == server[0] && open[2] == server[0]);
    if starts_with(bare, start) {
        assert(bare.take(4)[2] == start[2] && bare.take(4)[3] == start[3]);
    }
    if starts_with(open, start) {
        assert(open.take(4)[2] == start[2] && open.take(4)[3] == start[3]);
    }
    lemma_piece_ends_at(bare, 2, (2 + n) as nat, Separator::Path);
    lemma_piece_ends_at(open, 2, (2 + n) as nat, Separator::Path);
    lemma_piece_ends_at(open, (3 + n) as nat, (3 + n) as nat, Separator::Path);
    assert(piece_end(bare, (3 + n) as nat, Separator::Path) == 3 + n);
    let unc = seq!['\\', '\\', '?', '\\', 'U', 'N', 'C', '\\'] + server;
    assert(unc.take(4) =~= start);
    assert(unc.subrange(4, 7) =~= seq!['U', 'N', 'C']);
    assert forall|j: int| 8 <= j < 8 + n implies !Separator::Backslash.divides(
        #[trigger] unc[j],
    ) by {
        assert(unc[j] == server[j - 8]);
    }
    lemma_piece_ends_at(unc, 8, (8 + n) as nat, Separator::Backslash);
    assert(piece_end(unc, (9 + n) as nat, Separator::Backslash) == 9 + n);
    if rest.len() == 0 || rest[0] == '\\' {
        let wide = seq!['\\', '\\', '?', '\\', 'U', 'N', 'C', '\\'] + server + seq!['\\'] + rest;
        assert(wide.take(4) =~= start);
        assert(wide.subrange(4, 7) =~= seq!['U', 'N', 'C']);
        assert forall|j: int| 8 <= j < 8 + n implies !Separator::Backslash.divides(
            #[trigger] wide[j],
        ) by {
            assert(wide[j] == server[j - 8]);
        }
        assert(wide[(8 + n) as int] == '\\');
        if rest.len() > 0 {
            assert(wide[(9 + n) as int] == rest[0]);
        }
        lemma_piece_ends_at(wide, 8, (8 + n) as nat, Separator::Backslash);
        lemma_piece_ends_at(wide, (9 + n) as nat, (9 + n) as nat, Separator::Backslash);
    }
}

} // verus!
