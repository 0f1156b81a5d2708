//! Text as a sequence of characters: decimal numbers, splitting, trimming, comparing, replacing.

use vstd::prelude::*;

verus! {

broadcast use vstd::string::group_string_axioms;

/// `String::push`: appends one character to the end of the string.
pub assume_specification[ String::push ](text: &mut String, c: char)
    ensures
        final(text)@ == old(text)@.push(c),
;

/// The decimal digit for a number below ten.
pub open spec fn digit(value: nat) -> char {
    (48 + value) as char
}

/// A number in decimal notation, without leading zeros.
pub open spec fn decimal(value: nat) -> Seq<char>
    decreases value,
{
    if value < 10 {
        seq![digit(value)]
    } else {
        decimal(value / 10).push(digit(value % 10))
    }
}

/// What divides a text into pieces.
#[derive(Clone, Copy)]
pub enum Separator {
    /// The `/` of a URL path.
    Slash,
    /// Either separator of a Windows path.
    Path,
    /// The only separator of a Windows path in verbatim form.
    Backslash,
    /// ASCII white space.
    Blank,
}

impl Separator {
    /// Whether `c` separates pieces.
    pub open spec fn divides(self, c: char) -> bool {
        match self {
            Separator::Slash => c == '/',
            Separator::Path => c == '/' || c == '\\',
            Separator::Backslash => c == '\\',
            Separator::Blank => c == ' ' || c == '\t' || c == '\n' || c == '\x0c' || c == '\r',
        }
    }

    /// Whether `c` separates pieces.
    pub fn is(self, c: char) -> (r: bool)
        ensures
            r == self.divides(c),
    {
        match self {
            Separator::Slash => c == '/',
            Separator::Path => c == '/' || c == '\\',
            Separator::Backslash => c == '\\',
            Separator::Blank => c == ' ' || c == '\t' || c == '\n' || c == '\x0c' || c == '\r',
        }
    }
}

/// The view of an optional text.
pub open spec fn text_view(text: Option<&str>) -> Option<Seq<char>> {
    match text {
        Some(text) => Some(text@),
        None => None,
    }
}

/// What an optional text holds.
pub open spec fn owned_text(text: Option<String>) -> Option<Seq<char>> {
    match text {
        Some(text) => Some(text@),
        None => None,
    }
}

/// The pieces of a text between separators, empty ones among them, in order.
pub open spec fn pieces(text: Seq<char>, separator: Separator) -> Seq<Seq<char>>
    decreases text.len(),
{
    if text.len() == 0 {
        seq![Seq::<char>::empty()]
    } else {
        let before = pieces(text.drop_last(), separator);
        if separator.divides(text.last()) {
            before.push(Seq::<char>::empty())
        } else {
            before.drop_last().push(before.last().push(text.last()))
        }
    }
}

/// The pieces of a text between separators that are not empty, in order.
pub open spec fn full_pieces(text: Seq<char>, separator: Separator) -> Seq<Seq<char>> {
    pieces(text, separator).filter(|piece: Seq<char>| piece.len() > 0)
}

/// The words of a text: its pieces between ASCII white space that are not empty.
pub open spec fn words(text: Seq<char>) -> Seq<Seq<char>> {
    full_pieces(text, Separator::Blank)
}

/// The views of a list of strings.
pub open spec fn texts(list: Seq<String>) -> Seq<Seq<char>> {
    list.map_values(|text: String| text@)
}

/// A text without its trailing slashes.
pub open spec fn without_trailing_slashes(text: Seq<char>) -> Seq<char>
    decreases text.len(),
{
    if text.len() > 0 && text.last() == '/' {
        without_trailing_slashes(text.drop_last())
    } else {
        text
    }
}

/// The lower-case form of an ASCII letter, any other character unchanged.
pub open spec fn lower(c: char) -> char {
    if 'A' <= c && c <= 'Z' {
        (c as u32 + 32) as char
    } else {
        c
    }
}

/// Whether two texts are equal up to the case of ASCII letters.
pub open spec fn same_ignoring_case(a: Seq<char>, b: Seq<char>) -> bool {
    a.len() == b.len() && forall|i: int| 0 <= i < a.len() ==> lower(#[trigger] a[i]) == lower(b[i])
}

/// Whether `pattern` stands at the start of `text`.
pub open spec fn starts_with(text: Seq<char>, pattern: Seq<char>) -> bool {
    pattern.len() <= text.len() && text.take(pattern.len() as int) == pattern
}

/// `text` with every occurrence of `pattern`, found from left to right, replaced.
pub open spec fn replaced(text: Seq<char>, pattern: Seq<char>, with: Seq<char>) -> Seq<char>
    recommends
        pattern.len() > 0,
    decreases text.len(),
{
    if text.len() == 0 || pattern.len() == 0 {
        text
    } else if starts_with(text, pattern) {
        with + replaced(text.skip(pattern.len() as int), pattern, with)
    } else {
        seq![text[0]] + replaced(text.skip(1), pattern, with)
    }
}

/// The characters of a text.
pub fn chars_of(text: &str) -> (chars: Vec<char>)
    ensures
        chars@ == text@,
{
    let mut chars: Vec<char> = Vec::new();
    for c in it: text.chars()
        invariant
            it.seq() == text@,
            chars@ == text@.take(it.index() as int),
    {
        chars.push(c);
        assert(text@.take(it.index() + 1) =~= text@.take(it.index() as int).push(c));
    }
    assert(text@.take(text@.len() as int) =~= text@);
    chars
}

/// The characters from `start` up to `end`, as a string.
pub fn text_of(chars: &Vec<char>, start: usize, end: usize) -> (text: String)
    requires
        start <= end <= chars@.len(),
    ensures
        text@ == chars@.subrange(start as int, end as int),
{
    let mut text = String::new();
    let mut i: usize = start;
    while i < end
        invariant
            start <= i <= end <= chars@.len(),
            text@ == chars@.subrange(start as int, i as int),
        decreases end - i,
    {
        text.push(chars[i]);
        assert(chars@.subrange(start as int, i + 1) =~= chars@.subrange(start as int, i as int).push(
            chars@[i as int],
        ));
        i = i + 1;
    }
    text
}

/// Whether two texts are equal.
pub fn same_text(a: &str, b: &str) -> (r: bool)
    ensures
        r == (a@ == b@),
{
    a.to_owned() == b.to_owned()
}

/// Appends a number in decimal notation.
pub fn push_decimal(text: &mut String, value: u128)
    ensures
        final(text)@ == old(text)@ + decimal(value as nat),
    decreases value,
{
    if value >= 10 {
        push_decimal(text, value / 10);
    }
    let last: u8 = (value % 10) as u8;
    text.push((48 + last) as char);
    assert(text@ =~= old(text)@ + decimal(value as nat));
}

/// The pieces of a text between separators, empty ones among them, in order.
pub fn split(text: &str, separator: Separator) -> (list: Vec<String>)
    ensures
        texts(list@) == pieces(text@, separator),
{
    let chars = chars_of(text);
    let mut list: Vec<String> = Vec::new();
    let mut piece = String::new();
    let mut i: usize = 0;
    assert(chars@.take(0) =~= Seq::<char>::empty());
    assert(texts(list@).push(piece@) =~= pieces(chars@.take(0), separator));
    while i < chars.len()
        invariant
            i <= chars@.len(),
            texts(list@).push(piece@) == pieces(chars@.take(i as int), separator),
        decreases chars@.len() - i,
    {
        let c = chars[i];
        let ghost before = pieces(chars@.take(i as int), separator);
        let ghost done = texts(list@);
        proof {
            assert(chars@.take(i + 1).drop_last() =~= chars@.take(i as int));
            assert(before.drop_last() =~= done);
            assert(before.last() == piece@);
        }
        if separator.is(c) {
            list.push(piece);
            piece = String::new();
            assert(texts(list@) =~= before);
        } else {
            piece.push(c);
        }
        i = i + 1;
    }
    assert(chars@.take(chars@.len() as int) =~= chars@);
    let ghost done = texts(list@);
    list.push(piece);
    assert(texts(list@) =~= done.push(piece@));
    list
}

/// The words of a text, in order.
pub fn split_words(text: &str) -> (list: Vec<String>)
    ensures
        texts(list@) == words(text@),
{
    split_full(text, Separator::Blank)
}

/// The pieces of a text between separators that are not empty, in order.
pub fn split_full(text: &str, separator: Separator) -> (list: Vec<String>)
    ensures
        texts(list@) == full_pieces(text@, separator),
{
    let parts = split(text, separator);
    let ghost full = pieces(text@, separator);
    let ghost kept = |piece: Seq<char>| piece.len() > 0;
    let mut list: Vec<String> = Vec::new();
    let mut i: usize = 0;
    assert(full.take(0) =~= Seq::<Seq<char>>::empty());
    reveal(Seq::filter);
    assert(texts(list@) =~= full.take(0).filter(kept));
    while i < parts.len()
        invariant
            i <= parts@.len(),
            texts(parts@) == full,
            kept == (|piece: Seq<char>| piece.len() > 0),
            texts(list@) == full.take(i as int).filter(kept),
        decreases parts@.len() - i,
    {
        let ghost done = texts(list@);
        proof {
            assert(full.take(i + 1) =~= full.take(i as int).push(full[i as int]));
            full.take(i as int).lemma_filter_push(full[i as int], kept);
            assert(full[i as int] == parts@[i as int]@);
        }
        if !parts[i].as_str().is_empty() {
            list.push(parts[i].clone());
            assert(texts(list@) =~= done.push(full[i as int]));
        }
        i = i + 1;
    }
    assert(full.take(full.len() as int) =~= full);
    list
}

/// A text without its trailing slashes.
pub fn trim_trailing_slashes(text: &str) -> (trimmed: String)
    ensures
        trimmed@ == without_trailing_slashes(text@),
{
    let chars = chars_of(text);
    let mut end: usize = chars.len();
    assert(chars@.take(end as int) =~= chars@);
    while end > 0 && chars[end - 1] == '/'
        invariant
            end <= chars@.len(),
            without_trailing_slashes(chars@.take(end as int)) == without_trailing_slashes(text@),
        decreases end,
    {
        assert(chars@.take(end as int).drop_last() =~= chars@.take(end - 1));
        end = end - 1;
    }
    assert(chars@.take(end as int) =~= chars@.subrange(0, end as int));
    text_of(&chars, 0, end)
}

/// The lower-case form of an ASCII letter, any other character unchanged.
pub fn lower_case(c: char) -> (r: char)
    ensures
        r == lower(c),
{
    if 'A' <= c && c <= 'Z' {
        (c as u8 + 32) as char
    } else {
        c
    }
}

/// Whether two texts are equal up to the case of ASCII letters.
pub fn eq_ignore_case(a: &str, b: &str) -> (r: bool)
    ensures
        r == same_ignoring_case(a@, b@),
{
    let left = chars_of(a);
    let right = chars_of(b);
    if left.len() != right.len() {
        return false;
    }
    let mut i: usize = 0;
    while i < left.len()
        invariant
            i <= left@.len(),
            left@ == a@,
            right@ == b@,
            left@.len() == right@.len(),
            forall|j: int| 0 <= j < i ==> lower(#[trigger] a@[j]) == lower(b@[j]),
        decreases left@.len() - i,
    {
        if lower_case(left[i]) != lower_case(right[i]) {
            assert(lower(a@[i as int]) != lower(b@[i as int]));
            return false;
        }
        i = i + 1;
    }
    true
}

/// Whether `pattern` stands in `chars` at position `at`.
fn stands_at(chars: &Vec<char>, at: usize, pattern: &Vec<char>) -> (r: bool)
    requires
        at <= chars@.len(),
    ensures
        r == starts_with(chars@.skip(at as int), pattern@),
{
    let ghost rest = chars@.skip(at as int);
    if chars.len() - at < pattern.len() {
        return false;
    }
    let mut i: usize = 0;
    while i < pattern.len()
        invariant
            i <= pattern@.len(),
            at + pattern@.len() <= chars.len(),
            rest == chars@.skip(at as int),
            forall|j: int| 0 <= j < i ==> rest[j] == #[trigger] pattern@[j],
        decreases pattern@.len() - i,
    {
        if chars[at + i] != pattern[i] {
            assert(rest.take(pattern@.len() as int)[i as int] != pattern@[i as int]);
            return false;
        }
        i = i + 1;
    }
    assert(rest.take(pattern@.len() as int) =~= pattern@);
    true
}

/// `text` with every occurrence of `pattern`, found from left to right, replaced.
pub fn replace(text: &str, pattern: &str, with: &str) -> (r: String)
    requires
        pattern@.len() > 0,
    ensures
        r@ == replaced(text@, pattern@, with@),
{
    let chars = chars_of(text);
    let sought = chars_of(pattern);
    let mut r = String::new();
    let mut i: usize = 0;
    assert(chars@.skip(0) =~= chars@);
    assert(r@ + replaced(chars@, pattern@, with@) =~= replaced(text@, pattern@, with@));
    while i < chars.len()
        invariant
            i <= chars@.len(),
            sought@ == pattern@,
            sought@.len() > 0,
            r@ + replaced(chars@.skip(i as int), pattern@, with@) == replaced(
                text@,
                pattern@,
                with@,
            ),
        decreases chars@.len() - i,
    {
        let ghost done = r@;
        let ghost rest = chars@.skip(i as int);
        if stands_at(&chars, i, &sought) {
            r.append(with);
            assert(rest.skip(sought@.len() as int) =~= chars@.skip(i + sought@.len()));
            assert(done + replaced(rest, pattern@, with@) =~= r@ + replaced(
                chars@.skip(i + sought@.len()),
                pattern@,
                with@,
            ));
            i = i + sought.len();
        } else {
            r.push(chars[i]);
            assert(rest.skip(1) =~= chars@.skip(i + 1));
            assert(done + replaced(rest, pattern@, with@) =~= r@ + replaced(
                chars@.skip(i + 1),
                pattern@,
                with@,
            ));
            i = i + 1;
        }
    }
    assert(r@ + replaced(chars@.skip(i as int), pattern@, with@) =~= r@);
    r
}

/// A text followed by another.
pub fn joined(first: &str, second: &str) -> (r: String)
    ensures
        r@ == first@ + second@,
{
    let mut r = first.to_owned();
    r.append(second);
    r
}

/// Splitting a text at a separator between two texts splits each of them.
pub proof fn lemma_pieces_around_separator(a: Seq<char>, c: char, b: Seq<char>, separator: Separator)
    requires
        separator.divides(c),
    ensures
        pieces(a.push(c) + b, separator) == pieces(a, separator) + pieces(b, separator),
    decreases b.len(),
{
    let whole = a.push(c) + b;
    lemma_pieces_not_empty(b, separator);
    if b.len() == 0 {
        assert(whole =~= a.push(c));
        assert(whole.drop_last() =~= a);
        assert(pieces(whole, separator) =~= pieces(a, separator) + pieces(b, separator));
    } else {
        assert(whole.drop_last() =~= a.push(c) + b.drop_last());
        lemma_pieces_around_separator(a, c, b.drop_last(), separator);
        lemma_pieces_not_empty(b.drop_last(), separator);
        assert(pieces(whole, separator) =~= pieces(a, separator) + pieces(b, separator));
    }
}

/// Every text has a piece, if only an empty one.
pub proof fn lemma_pieces_not_empty(text: Seq<char>, separator: Separator)
    ensures
        pieces(text, separator).len() > 0,
    decreases text.len(),
{
    if text.len() > 0 {
        lemma_pieces_not_empty(text.drop_last(), separator);
    }
}

/// No piece contains a separator.
pub proof fn lemma_pieces_hold_no_separator(text: Seq<char>, separator: Separator)
    ensures
        forall|i: int, j: int|
            0 <= i < pieces(text, separator).len() && 0 <= j < pieces(text, separator)[i].len()
                ==> !separator.divides(#[trigger] pieces(text, separator)[i][j]),
    decreases text.len(),
{
    if text.len() > 0 {
        lemma_pieces_hold_no_separator(text.drop_last(), separator);
        lemma_pieces_not_empty(text.drop_last(), separator);
    }
}

/// A text without separators is its only piece.
pub proof fn lemma_single_piece(text: Seq<char>, separator: Separator)
    requires
        forall|j: int| 0 <= j < text.len() ==> !separator.divides(#[trigger] text[j]),
    ensures
        pieces(text, separator) == seq![text],
    decreases text.len(),
{
    if text.len() > 0 {
        lemma_single_piece(text.drop_last(), separator);
        assert(text.drop_last().push(text.last()) =~= text);
        assert(pieces(text, separator) =~= seq![text]);
    } else {
        assert(text =~= Seq::<char>::empty());
    }
}


/// Which characters separate pieces: the slash of a URL; either slash of a path, and only the
/// backslash where it is in verbatim form; spaces, tabs, line feeds, form feeds and carriage
/// returns.
pub proof fn law_separators(c: char)
    ensures
        Separator::Slash.divides(c) <==> c == '/',
        Separator::Path.divides(c) <==> c == '/' || c == '\\',
        Separator::Backslash.divides(c) <==> c == '\\',
        Separator::Blank.divides(c) <==> c as u32 == 9 || c as u32 == 10 || c as u32 == 12 || c as u32
            == 13 || c as u32 == 32,
{
}

/// A separator between two texts divides them, and nothing else does: the pieces of the whole are
/// those of the one, and after them those of the other, and a text without separators is its only
/// piece.
pub proof fn law_pieces_stand_between_separators(
    a: Seq<char>,
    c: char,
    b: Seq<char>,
    separator: Separator,
)
    requires
        separator.divides(c),
    ensures
        pieces(a.push(c) + b, separator) == pieces(a, separator) + pieces(b, separator),
        (forall|j: int| 0 <= j < a.len() ==> !separator.divides(#[trigger] a[j])) ==> pieces(
            a,
            separator,
        ) == seq![a],
{
    lemma_pieces_around_separator(a, c, b, separator);
    if forall|j: int| 0 <= j < a.len() ==> !separator.divides(#[trigger] a[j]) {
        lemma_single_piece(a, separator);
    }
}

/// White space between two texts divides their words, and nothing else does: the words of the whole
/// are those of the one, and after them those of the other. A text without white space is its only
/// word, unless it is empty.
pub proof fn law_words_stand_between_blanks(a: Seq<char>, c: char, b: Seq<char>)
    requires
        c == ' ' || c == '\t' || c == '\n' || c == '\x0c' || c == '\r',
    ensures
        words(a.push(c) + b) == words(a) + words(b),
        (forall|j: int|
            0 <= j < a.len() ==> !(#[trigger] a[j] == ' ' || a[j] == '\t' || a[j] == '\n' || a[j]
                == '\x0c' || a[j] == '\r')) ==> words(a) == if a.len() > 0 {
            seq![a]
        } else {
            Seq::empty()
        },
{
    let kept = |piece: Seq<char>| piece.len() > 0;
    lemma_pieces_around_separator(a, c, b, Separator::Blank);
    Seq::filter_distributes_over_add(
        pieces(a, Separator::Blank),
        pieces(b, Separator::Blank),
        kept,
    );
    if forall|j: int|
        0 <= j < a.len() ==> !(#[trigger] a[j] == ' ' || a[j] == '\t' || a[j] == '\n' || a[j]
            == '\x0c' || a[j] == '\r') {
        lemma_single_piece(a, Separator::Blank);
        assert(seq![a] =~= Seq::<Seq<char>>::empty().push(a));
        Seq::<Seq<char>>::empty().lemma_filter_push(a, kept);
        reveal(Seq::filter);
        assert(Seq::<Seq<char>>::empty().filter(kept) =~= Seq::<Seq<char>>::empty());
    }
}

/// The number that digits stand for.
pub open spec fn number_in(digits: Seq<char>) -> nat
    decreases digits.len(),
{
    if digits.len() == 0 {
        0
    } else {
        (10 * number_in(digits.drop_last()) + (digits.last() as u32 - 48)) as nat
    }
}

/// A number in decimal notation is read back as the number. It consists of the digits from 0 to 9,
/// and starts with 0 only if it is zero.
pub proof fn law_decimal_is_read_back(value: nat)
    ensures
        number_in(decimal(value)) == value,
        decimal(value).len() > 0,
        forall|i: int|
            0 <= i < decimal(value).len() ==> '0' <= #[trigger] decimal(value)[i] && decimal(
                value,
            )[i] <= '9',
        value > 0 ==> decimal(value)[0] != '0',
        value == 0 ==> decimal(value) == seq!['0'],
    decreases value,
{
    if value >= 10 {
        law_decimal_is_read_back(value / 10);
        assert(decimal(value).drop_last() =~= decimal(value / 10));
    } else {
        assert(decimal(value).drop_last() =~= Seq::<char>::empty());
        assert(number_in(Seq::<char>::empty()) == 0);
    }
}

/// Trimming takes away slashes at the end alone, and all of them.
pub proof fn law_trailing_slashes_are_trimmed(text: Seq<char>)
    ensures
        without_trailing_slashes(text).len() <= text.len(),
        without_trailing_slashes(text) == text.take(without_trailing_slashes(text).len() as int),
        forall|i: int|
            without_trailing_slashes(text).len() <= i < text.len() ==> #[trigger] text[i] == '/',
        without_trailing_slashes(text).len() > 0 ==> without_trailing_slashes(text).last() != '/',
    decreases text.len(),
{
    if text.len() > 0 && text.last() == '/' {
        law_trailing_slashes_are_trimmed(text.drop_last());
        assert(forall|i: int| 0 <= i < text.len() - 1 ==> text.drop_last()[i] == text[i]);
        assert(without_trailing_slashes(text) =~= text.take(
            without_trailing_slashes(text).len() as int,
        ));
    } else {
        assert(text.take(text.len() as int) =~= text);
    }
}

/// Two characters are equal up to their case if they are equal, or one is a letter from A to Z and
/// the other the same letter from a to z.
pub open spec fn same_letter(a: char, b: char) -> bool {
    a == b || ('A' <= a && a <= 'Z' && b as u32 == a as u32 + 32) || ('A' <= b && b <= 'Z' && a as u32
        == b as u32 + 32)
}

/// Texts are equal up to their case if they have the same length, and at every place the same
/// letter or the same other character.
pub proof fn law_case_does_not_matter(a: Seq<char>, b: Seq<char>)
    ensures
        same_ignoring_case(a, b) <==> a.len() == b.len() && forall|i: int|
            0 <= i < a.len() ==> same_letter(#[trigger] a[i], b[i]),
{
    if same_ignoring_case(a, b) {
        assert forall|i: int| 0 <= i < a.len() implies same_letter(#[trigger] a[i], b[i]) by {
            assert(lower(a[i]) == lower(b[i]));
        }
    }
    if a.len() == b.len() && forall|i: int| 0 <= i < a.len() ==> same_letter(#[trigger] a[i], b[i]) {
        assert forall|i: int| 0 <= i < a.len() implies lower(#[trigger] a[i]) == lower(b[i]) by {
            assert(same_letter(a[i], b[i]));
        }
    }
}

/// Whether a pattern stands in a text at a place.
pub open spec fn stands_in(text: Seq<char>, at: int, pattern: Seq<char>) -> bool {
    0 <= at && at + pattern.len() <= text.len() && text.subrange(at, at + pattern.len()) == pattern
}

/// Replacing changes the first place where the pattern stands, and goes on after it; where it
/// stands nowhere, the text stays as it is.
pub proof fn law_every_occurrence_is_replaced(
    before: Seq<char>,
    pattern: Seq<char>,
    after: Seq<char>,
    with: Seq<char>,
)
    requires
        pattern.len() > 0,
        forall|i: int|
            0 <= i < before.len() ==> !#[trigger] stands_in(before + pattern + after, i, pattern),
    ensures
        replaced(before + pattern + after, pattern, with) == before + with + replaced(
            after,
            pattern,
            with,
        ),
    decreases before.len(),
{
    let text = before + pattern + after;
    if before.len() == 0 {
        assert(text.take(pattern.len() as int) =~= pattern);
        assert(text.skip(pattern.len() as int) =~= after);
        assert(before + with =~= with);
    } else {
        assert(!stands_in(text, 0, pattern));
        assert(!starts_with(text, pattern)) by {
            if starts_with(text, pattern) {
                assert(text.subrange(0, pattern.len() as int) =~= text.take(pattern.len() as int));
            }
        }
        let rest = before.skip(1);
        assert(text.skip(1) =~= rest + pattern + after);
        assert forall|i: int| 0 <= i < rest.len() implies !#[trigger] stands_in(
            rest + pattern + after,
            i,
            pattern,
        ) by {
            if stands_in(rest + pattern + after, i, pattern) {
                assert(text.subrange(i + 1, i + 1 + pattern.len()) =~= (rest + pattern
                    + after).subrange(i, i + pattern.len()));
                assert(stands_in(text, i + 1, pattern));
            }
        }
        law_every_occurrence_is_replaced(rest, pattern, after, with);
        assert(seq![text[0]] + (rest + with + replaced(after, pattern, with)) =~= before + with
            + replaced(after, pattern, with));
    }
}

/// A text in which the pattern does not stand stays as it is.
pub proof fn law_nothing_else_is_replaced(text: Seq<char>, pattern: Seq<char>, with: Seq<char>)
    requires
        pattern.len() > 0,
        forall|i: int| !#[trigger] stands_in(text, i, pattern),
    ensures
        replaced(text, pattern, with) == text,
    decreases text.len(),
{
    if text.len() > 0 {
        assert(!stands_in(text, 0, pattern));
        assert(!starts_with(text, pattern)) by {
            if starts_with(text, pattern) {
                assert(text.subrange(0, pattern.len() as int) =~= text.take(pattern.len() as int));
            }
        }
        let rest = text.skip(1);
        assert forall|i: int| !#[trigger] stands_in(rest, i, pattern) by {
            if stands_in(rest, i, pattern) {
                assert(text.subrange(i + 1, i + 1 + pattern.len()) =~= rest.subrange(
                    i,
                    i + pattern.len(),
                ));
                assert(stands_in(text, i + 1, pattern));
            }
        }
        law_nothing_else_is_replaced(rest, pattern, with);
        assert(seq![text[0]] + rest =~= text);
    }
}

/// Lists and optional texts are seen as they are: each text at its place, and one that is there even
/// if it is empty.
pub proof fn law_texts_are_seen_whole(list: Seq<String>, i: int, text: &str, owned: String)
    requires
        0 <= i < list.len(),
    ensures
        texts(list).len() == list.len(),
        texts(list)[i] == list[i]@,
        text_view(Some(text)) == Some(text@),
        text_view(None) is None,
        owned_text(Some(owned)) == Some(owned@),
        owned_text(None) is None,
{
}

} // verus!
