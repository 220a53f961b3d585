//! The regular expression engine and the UTF-8 decoder, as far as the
//! library relies on them.
//!
//! Nothing in this file is proved. Each function below makes one call into
//! the `regex` crate or into `core::str`, and its contract says what the
//! library takes that call to do.

use vstd::prelude::*;
use vstd::string::StringSliceAdditionalSpecFns;
use vstd::utf8::valid_utf8;

use crate::encoding::Segment;
use crate::pattern::{all_well_formed, fields_are_keys, pattern_of, well_named};

verus! {

/// `regex::Regex`, a compiled regular expression.
#[verifier::external_type_specification]
#[verifier::external_body]
pub struct ExRegex(regex::Regex);

/// `regex::Error`, the reason why a regular expression did not compile.
#[verifier::external_type_specification]
#[verifier::external_body]
pub struct ExRegexError(regex::Error);

/// `regex::Captures`, the groups of one match.
#[verifier::external_type_specification]
#[verifier::external_body]
pub struct ExCaptures<'h>(regex::Captures<'h>);

/// `core::str::Utf8Error`, the reason why bytes are not UTF-8.
#[verifier::external_type_specification]
#[verifier::external_body]
pub struct ExUtf8Error(core::str::Utf8Error);

/// The characters that `regex::escape` puts a backslash before.
pub open spec fn is_meta_character(c: char) -> bool {
    ||| c == '\\'
    ||| c == '.'
    ||| c == '+'
    ||| c == '*'
    ||| c == '?'
    ||| c == '('
    ||| c == ')'
    ||| c == '|'
    ||| c == '['
    ||| c == ']'
    ||| c == '{'
    ||| c == '}'
    ||| c == '^'
    ||| c == '$'
    ||| c == '#'
    ||| c == '&'
    ||| c == '-'
    ||| c == '~'
}

/// `text` with a backslash before each of its meta characters.
pub open spec fn escaped(text: Seq<char>) -> Seq<char>
    decreases text.len(),
{
    if text.len() == 0 {
        Seq::empty()
    } else if is_meta_character(text[0]) {
        seq!['\\', text[0]] + escaped(text.drop_first())
    } else {
        seq![text[0]] + escaped(text.drop_first())
    }
}

/// The text that `pattern` spells: `pattern` without the backslashes of its
/// escaped meta characters. A pattern spells a text only where it holds no
/// operator, which is to say no meta character without a backslash before
/// it and no backslash but before a meta character.
pub open spec fn spelled(pattern: Seq<char>) -> Option<Seq<char>>
    decreases pattern.len(),
{
    if pattern.len() == 0 {
        Some(Seq::empty())
    } else if pattern[0] == '\\' {
        if pattern.len() >= 2 && is_meta_character(pattern[1]) {
            match spelled(pattern.skip(2)) {
                Some(rest) => Some(seq![pattern[1]] + rest),
                None => None,
            }
        } else {
            None
        }
    } else if is_meta_character(pattern[0]) {
        None
    } else {
        match spelled(pattern.skip(1)) {
            Some(rest) => Some(seq![pattern[0]] + rest),
            None => None,
        }
    }
}

/// `pattern` between the anchors for the start and the end of the text that
/// is searched, so that it matches the whole of that text or nothing. The
/// group around it keeps the anchors outside whatever `pattern` holds.
pub open spec fn anchored(pattern: Seq<char>) -> Seq<char> {
    "\\A(?:"@ + pattern + ")\\z"@
}

/// Whether `text` stands somewhere in `haystack`.
pub open spec fn is_part_of(text: Seq<char>, haystack: Seq<char>) -> bool {
    exists|from: int, to: int|
        0 <= from <= to <= haystack.len() && text == #[trigger] haystack.subrange(from, to)
}

/// The pattern that `regex` was compiled from and keeps.
pub uninterp spec fn source_of(regex: regex::Regex) -> Seq<char>;

/// Whether `regex` was compiled with the options of `regex::Regex::new`, so
/// that what it matches depends on its pattern alone. A builder can set
/// other options, such as to take no account of case.
pub uninterp spec fn plainly_compiled(regex: regex::Regex) -> bool;

/// What `regex::Regex::captures` finds in `haystack` for the regular
/// expression that `regex::Regex::new` compiles from `pattern`: for the
/// leftmost match, the text of each named group that took part in it, by
/// the group's name; `None` where nothing in `haystack` matches.
pub uninterp spec fn search(pattern: Seq<char>, haystack: Seq<char>) -> Option<
    Map<Seq<char>, Seq<char>>,
>;

/// The text of each named group that took part in the match, by the group's
/// name.
pub uninterp spec fn groups_of(captures: regex::Captures) -> Map<Seq<char>, Seq<char>>;

/// The error that `core::str::from_utf8` gives for `bytes`, where they are
/// not UTF-8.
pub uninterp spec fn utf8_error(bytes: Seq<u8>) -> core::str::Utf8Error;

/// `regex::escape`: the text with a backslash before each meta character, so
/// that it stands for itself in a pattern.
#[verifier::external_body]
pub(crate) fn escape(text: &str) -> (res: String)
    ensures
        res@ == escaped(text@),
{
    regex::escape(text)
}

/// `regex::Regex::new`: the regular expression compiled from `pattern` with
/// the options that are its own, which remembers the pattern, or the error
/// with which the pattern was refused.
/// The engine refuses a pattern that it cannot read and one whose compiled
/// form is larger than its limit; how large that form is depends on the
/// machine, so nothing is said here of when a pattern is accepted.
///
/// Among the patterns that it cannot read are those with a group whose name
/// is empty and those with two groups of one name: its parser refuses the
/// first where it reads the name, the second where it notes it. In the
/// pattern of well formed pieces each field is such a group, since the
/// groups before it are closed and the text before it is escaped.
#[verifier::external_body]
pub(crate) fn compile(pattern: &str) -> (res: Result<regex::Regex, regex::Error>)
    ensures
        res matches Ok(regex) ==> source_of(regex) == pattern@ && plainly_compiled(regex),
        res is Ok ==> forall|pieces: Seq<Segment>|
            #![trigger pattern_of(pieces)]
            pattern@ == anchored(pattern_of(pieces)) && all_well_formed(pieces) ==> well_named(
                pieces,
            ),
{
    regex::Regex::new(pattern)
}

/// `regex::Regex::captures`: the groups of the leftmost match in `haystack`,
/// or `None` where nothing matches. For a regular expression compiled with
/// the options of `regex::Regex::new`, the outcome depends on the pattern and
/// on `haystack` alone. The text of a group is a part of `haystack`.
///
/// `\A` matches only at the start of `haystack` and `\z` only at its end, so
/// a pattern between them matches the whole of `haystack` or nothing. A
/// pattern that holds no operator matches the text that it spells and no
/// other; between the anchors it is found exactly where `haystack` is that
/// text.
///
/// A group that is named is found in the match by its name and by no other
/// name, unless it took no part in the match. In the pattern of well formed
/// pieces the fields are such groups, one after the other with nothing to
/// choose between and nothing to leave out, so each takes part in every
/// match.
#[verifier::external_body]
pub(crate) fn captures<'h>(regex: &regex::Regex, haystack: &'h str) -> (res: Option<
    regex::Captures<'h>,
>)
    requires
        plainly_compiled(*regex),
    ensures
        match res {
            Some(found) => {
                &&& search(source_of(*regex), haystack@) == Some(groups_of(found))
                &&& forall|name: Seq<char>| #[trigger]
                    groups_of(found).contains_key(name) ==> is_part_of(
                        groups_of(found)[name],
                        haystack@,
                    )
            },
            None => search(source_of(*regex), haystack@) is None,
        },
        forall|pattern: Seq<char>|
            #![trigger anchored(pattern)]
            source_of(*regex) == anchored(pattern) && spelled(pattern) is Some ==> (res is Some
                <==> haystack@ == spelled(pattern)->Some_0),
        res matches Some(found) ==> forall|pieces: Seq<Segment>|
            #![trigger pattern_of(pieces)]
            source_of(*regex) == anchored(pattern_of(pieces)) && all_well_formed(pieces)
                ==> fields_are_keys(pieces, groups_of(found)),
{
    regex.captures(haystack)
}

/// `regex::Captures::name`, followed by `regex::Match::as_str`: the text of
/// the group called `name`, or `None` where the regular expression has no
/// such group or the group took no part in the match.
#[verifier::external_body]
pub(crate) fn group<'h>(captures: &regex::Captures<'h>, name: &str) -> (res: Option<&'h str>)
    ensures
        match res {
            Some(text) => groups_of(*captures).contains_key(name@) && groups_of(*captures)[name@]
                == text@,
            None => !groups_of(*captures).contains_key(name@),
        },
{
    captures.name(name).map(|found| found.as_str())
}

/// `core::str::from_utf8`: the text whose UTF-8 encoding is `bytes`, or the
/// decoder's error where `bytes` are not UTF-8.
#[verifier::external_body]
pub(crate) fn decode(bytes: &[u8]) -> (res: Result<&str, core::str::Utf8Error>)
    ensures
        match res {
            Ok(text) => valid_utf8(bytes@) && text.spec_bytes() == bytes@,
            Err(error) => !valid_utf8(bytes@) && error == utf8_error(bytes@),
        },
{
    core::str::from_utf8(bytes)
}

} // verus!
