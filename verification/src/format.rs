use vstd::prelude::*;
use vstd::slice::slice_subrange;
use vstd::string::StringExecFns;
use vstd::utf8::{decode_utf8, valid_utf8};

use crate::engine::{
    anchored, captures, compile, decode, escape, group, groups_of, is_part_of, plainly_compiled,
    source_of, spelled, utf8_error,
};
use crate::encoding::{
    decoded, decoded_piece, first_invalid, is_text, lemma_decoded_pieces,
    lemma_first_invalid_skips, lemma_pieces_of_text, lemma_text_of_pieces, Segment, Token,
};
use crate::pattern::{
    all_well_formed, fields_are_keys, fragment, pattern_of, well_named, whole_match,
};
use crate::syntax::{
    lemma_pieces_fixed, lemma_pieces_variable, lemma_pieces_well_formed, pieces, Piece, Symbol,
    FIELD_MARK,
};
use crate::text::str_eq;

verus! {

/// Why a format could not be built.
#[derive(Debug)]
#[allow(inconsistent_fields)]
pub enum FormatParserError {
    /// The regular expression made from the format did not compile.
    CompilationFailed { inner: regex::Error },
    /// A piece of the format is not UTF-8.
    StringConversionError { inner: core::str::Utf8Error },
}

/// A piece of a format: the name of a field, or text that stands between
/// fields.
#[derive(Debug, PartialEq, Eq)]
pub enum FormatPart {
    Variable(String),
    Fixed(String),
}

impl View for FormatPart {
    type V = Segment;

    open spec fn view(&self) -> Segment {
        match self {
            FormatPart::Variable(name) => Piece::Variable(name@),
            FormatPart::Fixed(text) => Piece::Fixed(text@),
        }
    }
}

/// Where the reader of a format stands: before the first byte, inside the
/// name of a field, or inside literal text. The numbers are the bounds of the
/// piece that is being read.
#[derive(Debug, Clone, Copy, PartialEq, Eq)]
pub enum FormatParserState {
    Start,
    Variable(usize, usize),
    Fixed(usize, usize),
}

/// The state after the byte `chr` at `index` was read in `state`.
pub open spec fn next_state(state: FormatParserState, chr: u8, index: int) -> FormatParserState {
    match state {
        FormatParserState::Start => if chr.is_mark() {
            FormatParserState::Variable((index + 1) as usize, (index + 1) as usize)
        } else {
            FormatParserState::Fixed(index as usize, (index + 1) as usize)
        },
        FormatParserState::Variable(start, _) => if chr.is_name() {
            FormatParserState::Variable(start, (index + 1) as usize)
        } else if chr.is_mark() {
            FormatParserState::Variable((index + 1) as usize, (index + 1) as usize)
        } else {
            FormatParserState::Fixed(index as usize, (index + 1) as usize)
        },
        FormatParserState::Fixed(start, _) => if chr.is_mark() {
            FormatParserState::Variable((index + 1) as usize, (index + 1) as usize)
        } else {
            FormatParserState::Fixed(start, (index + 1) as usize)
        },
    }
}

/// Tells whether `char` may occur in the name of a field.
pub fn is_var_char(char: u8) -> (res: bool)
    ensures
        res == char.is_name(),
{
    match char {
        0x61..=0x7a | 0x41..=0x5a | 0x5f => true,
        _ => false,
    }
}

/// Reads the byte `chr`, which stands at `index`, in `state`.
pub fn read_byte(chr: u8, index: usize, state: &FormatParserState) -> (res: FormatParserState)
    requires
        index < usize::MAX,
    ensures
        res == next_state(*state, chr, index as int),
{
    match state {
        FormatParserState::Start => match chr {
            FIELD_MARK => FormatParserState::Variable(index + 1, index + 1),
            _ => FormatParserState::Fixed(index, index + 1),
        },
        FormatParserState::Variable(start, _end) => match chr {
            x if is_var_char(x) => FormatParserState::Variable(*start, index + 1),
            FIELD_MARK => FormatParserState::Variable(index + 1, index + 1),
            _ => FormatParserState::Fixed(index, index + 1),
        },
        FormatParserState::Fixed(start, _end) => match chr {
            FIELD_MARK => FormatParserState::Variable(index + 1, index + 1),
            _ => FormatParserState::Fixed(*start, index + 1),
        },
    }
}

/// The text that the bytes from `start` up to `end` encode.
pub fn create_owned_str(bytes: &[u8], start: usize, end: usize) -> (res: Result<
    String,
    FormatParserError,
>)
    requires
        start <= end <= bytes@.len(),
    ensures
        match res {
            Ok(text) => {
                &&& valid_utf8(bytes@.subrange(start as int, end as int))
                &&& text@ == decode_utf8(bytes@.subrange(start as int, end as int))
            },
            Err(error) => {
                &&& !valid_utf8(bytes@.subrange(start as int, end as int))
                &&& error == (FormatParserError::StringConversionError {
                    inner: utf8_error(bytes@.subrange(start as int, end as int)),
                })
            },
        },
{
    match decode(slice_subrange(bytes, start, end)) {
        Ok(text) => {
            proof {
                vstd::utf8::encode_utf8_decode_utf8(text@);
            }
            Ok(text.to_owned())
        },
        Err(err) => Err(FormatParserError::StringConversionError { inner: err }),
    }
}

impl FormatParserState {
    /// Where in the format the piece that is being read begins, its `$`
    /// included.
    pub open spec fn anchor(self) -> int {
        match self {
            FormatParserState::Start => 0,
            FormatParserState::Variable(start, _) => start - 1,
            FormatParserState::Fixed(start, _) => start as int,
        }
    }

    /// The piece that is being read, as far as it was read.
    pub open spec fn open_piece(self, s: Seq<u8>) -> Token {
        match self {
            FormatParserState::Start => Piece::Fixed(Seq::empty()),
            FormatParserState::Variable(start, end) => Piece::Variable(
                s.subrange(start as int, end as int),
            ),
            FormatParserState::Fixed(start, end) => Piece::Fixed(
                s.subrange(start as int, end as int),
            ),
        }
    }

    /// Whether the piece that is being read ends after the first `read`
    /// bytes of `s`: the name of a field ends before a byte that is no name
    /// byte, literal text before a `$`, and both at the end of `s`.
    pub open spec fn ends_at(self, s: Seq<u8>, read: int) -> bool {
        read < s.len() ==> match self {
            FormatParserState::Start => false,
            FormatParserState::Variable(_, _) => !s[read].is_name(),
            FormatParserState::Fixed(_, _) => s[read].is_mark(),
        }
    }

    /// Whether the state is one that the reader can be in after the first
    /// `read` bytes of `s`.
    pub open spec fn tracks(self, s: Seq<u8>, read: int) -> bool {
        match self {
            FormatParserState::Start => read == 0,
            FormatParserState::Variable(start, end) => {
                &&& 1 <= start <= end == read <= s.len()
                &&& s[start - 1].is_mark()
                &&& forall|j: int| start <= j < end ==> (#[trigger] s[j]).is_name()
            },
            FormatParserState::Fixed(start, end) => {
                &&& start < end == read <= s.len()
                &&& forall|j: int| start <= j < end ==> !(#[trigger] s[j]).is_mark()
            },
        }
    }
}

/// The pieces that `parts` stand for.
pub open spec fn segments(parts: Seq<FormatPart>) -> Seq<Segment> {
    parts.map_values(|part: FormatPart| part@)
}

/// What the reader knows of `bytes` when it has closed the pieces `closed`
/// and put them on a stack that holds `parts`: the pieces of `bytes` are
/// those and the pieces from `anchor` on, and `parts` are `closed` as text.
pub open spec fn read_so_far(
    bytes: Seq<u8>,
    closed: Seq<Token>,
    parts: Seq<FormatPart>,
    anchor: int,
) -> bool {
    &&& valid_utf8(bytes) ==> first_invalid(pieces(bytes)) is None
    &&& pieces(bytes) == closed + pieces(bytes.skip(anchor))
    &&& forall|k: int| 0 <= k < closed.len() ==> is_text(#[trigger] closed[k])
    &&& segments(parts) == decoded(closed)
}

/// Closes the piece that is being read in `state` and puts it on `stack`,
/// unless the reader has only started. A piece that is not UTF-8 is the
/// first such piece of `bytes` and is refused.
fn close_piece(
    stack: &mut Vec<FormatPart>,
    bytes: &[u8],
    state: &FormatParserState,
    Ghost(closed): Ghost<Seq<Token>>,
    Ghost(read): Ghost<int>,
) -> (res: Result<(), FormatParserError>)
    requires
        state.tracks(bytes@, read),
        state.ends_at(bytes@, read),
        read_so_far(bytes@, closed, old(stack)@, state.anchor()),
    ensures
        match res {
            Ok(_) => if *state is Start {
                final(stack)@ == old(stack)@
            } else {
                read_so_far(bytes@, closed.push(state.open_piece(bytes@)), final(stack)@, read)
            },
            Err(error) => {
                &&& !valid_utf8(bytes@)
                &&& first_invalid(pieces(bytes@)) matches Some(token)
                &&& error == (FormatParserError::StringConversionError {
                    inner: utf8_error(token.content()),
                })
            },
        },
{
    let ghost token = state.open_piece(bytes@);
    proof {
        match state {
            FormatParserState::Variable(start, end) => {
                lemma_pieces_variable(bytes@, start - 1, *end as int);
            },
            FormatParserState::Fixed(start, end) => {
                lemma_pieces_fixed(bytes@, *start as int, *end as int);
            },
            FormatParserState::Start => {},
        }
        lemma_first_invalid_skips(closed, pieces(bytes@.skip(state.anchor())));
    }
    let ghost before = stack@;
    match state {
        FormatParserState::Variable(start, end) => {
            stack.push(FormatPart::Variable(create_owned_str(bytes, *start, *end)?))
        },
        FormatParserState::Fixed(start, end) => {
            stack.push(FormatPart::Fixed(create_owned_str(bytes, *start, *end)?))
        },
        _ => {},
    };
    proof {
        if !(*state is Start) {
            let rest = pieces(bytes@.skip(read));
            assert(closed + (seq![token] + rest) =~= closed.push(token) + rest);
            assert(is_text(token));
            assert(segments(stack@) =~= segments(before).push(decoded_piece(token)));
            assert(decoded(closed.push(token)) =~= decoded(closed).push(decoded_piece(token)));
        }
    }
    Ok(())
}

/// Reads the pieces of the format that `bytes` hold. Bytes that are UTF-8
/// give the pieces of their text: names of letters and underscores, and
/// literal text that is not empty and holds no `$`. In bytes that are not
/// UTF-8, some piece is not UTF-8 either, and the first such piece gives the
/// error.
pub fn read_parts(bytes: &[u8]) -> (res: Result<Vec<FormatPart>, FormatParserError>)
    ensures
        match res {
            Ok(parts) => {
                &&& valid_utf8(bytes@)
                &&& segments(parts@) == pieces(decode_utf8(bytes@))
                &&& forall|k: int| 0 <= k < parts@.len() ==> (#[trigger] parts@[k])@.well_formed()
            },
            Err(error) => {
                &&& !valid_utf8(bytes@)
                &&& first_invalid(pieces(bytes@)) matches Some(token)
                &&& error == (FormatParserError::StringConversionError {
                    inner: utf8_error(token.content()),
                })
            },
        },
{
    let mut state = FormatParserState::Start;
    let mut stack: Vec<FormatPart> = Vec::new();
    let ghost mut closed: Seq<Token> = Seq::empty();
    proof {
        assert(bytes@.skip(0) =~= bytes@);
        assert(closed + pieces(bytes@) =~= pieces(bytes@));
        assert(segments(stack@) =~= decoded(closed));
        if valid_utf8(bytes@) {
            lemma_pieces_of_text(bytes@);
        }
    }
    for i in 0..bytes.len()
        invariant
            state.tracks(bytes@, i as int),
            read_so_far(bytes@, closed, stack@, state.anchor()),
    {
        let new_state = read_byte(bytes[i], i, &state);
        match (&state, &new_state) {
            (FormatParserState::Variable(_, _), FormatParserState::Fixed(_, _)) => {
                close_piece(&mut stack, bytes, &state, Ghost(closed), Ghost(i as int))?;
                proof {
                    closed = closed.push(state.open_piece(bytes@));
                }
            },
            (
                FormatParserState::Variable(start, _),
                FormatParserState::Variable(b_start, _),
            ) if b_start > start => {
                close_piece(&mut stack, bytes, &state, Ghost(closed), Ghost(i as int))?;
                proof {
                    closed = closed.push(state.open_piece(bytes@));
                }
            },
            (FormatParserState::Fixed(_, _), FormatParserState::Variable(_, _)) => {
                close_piece(&mut stack, bytes, &state, Ghost(closed), Ghost(i as int))?;
                proof {
                    closed = closed.push(state.open_piece(bytes@));
                }
            },
            _ => {},
        };
        state = new_state
    }
    close_piece(&mut stack, bytes, &state, Ghost(closed), Ghost(bytes@.len() as int))?;
    proof {
        if !(state is Start) {
            closed = closed.push(state.open_piece(bytes@));
        }
        assert(pieces(bytes@) =~= closed);
        lemma_first_invalid_skips(closed, Seq::empty());
        lemma_text_of_pieces(bytes@);
        lemma_decoded_pieces(bytes@);
        lemma_pieces_well_formed(decode_utf8(bytes@));
        assert forall|k: int| 0 <= k < stack@.len() implies (#[trigger] stack@[k])@.well_formed() by {
            assert(segments(stack@)[k] == stack@[k]@);
        }
    }
    Ok(stack)
}

impl FormatPart {
    /// The regular expression that matches this piece in a log line.
    pub fn get_pattern(&self) -> (res: String)
        ensures
            res@ == fragment(self@),
    {
        match self {
            FormatPart::Variable(name) => {
                let constraint = if str_eq(name.as_str(), "status") {
                    "\\d{3}"
                } else if str_eq(name.as_str(), "body_bytes_sent") {
                    "\\d+"
                } else {
                    ".*"
                };
                let mut pattern = String::from_str("(?P<");
                pattern.append(name.as_str());
                pattern.append(">");
                pattern.append(constraint);
                pattern.append(")");
                pattern
            },
            FormatPart::Fixed(fixed_part) => escape(fixed_part.as_str()),
        }
    }
}

/// One line of a log, taken apart: the value of each field, by the field's
/// name.
pub struct Entry<'a> {
    captures: regex::Captures<'a>,
}

impl<'a> View for Entry<'a> {
    type V = Map<Seq<char>, Seq<char>>;

    closed spec fn view(&self) -> Map<Seq<char>, Seq<char>> {
        groups_of(self.captures)
    }
}

impl<'a> Entry<'a> {
    /// The value of the field called `key`.
    pub fn get(&'a self, key: &str) -> (res: Option<&'a str>)
        ensures
            match res {
                Some(value) => self@.contains_key(key@) && self@[key@] == value@,
                None => !self@.contains_key(key@),
            },
    {
        group(&self.captures, key)
    }

    /// Tells whether the line has a field called `key`.
    pub fn has(&self, key: &str) -> (res: bool)
        ensures
            res == self@.contains_key(key@),
    {
        group(&self.captures, key).is_some()
    }
}

/// A log format, ready to take lines apart.
#[derive(Debug)]
pub struct Format {
    parts: Vec<FormatPart>,
    pattern: String,
    re: regex::Regex,
}

impl View for Format {
    type V = Seq<Segment>;

    closed spec fn view(&self) -> Seq<Segment> {
        segments(self.parts@)
    }
}

impl Format {
    /// The pattern is that of the pieces, and the regular expression was
    /// compiled from it, between anchors, with the options of
    /// `regex::Regex::new`.
    #[verifier::type_invariant]
    spec fn compiled_from_parts(self) -> bool {
        &&& self.pattern@ == pattern_of(segments(self.parts@))
        &&& plainly_compiled(self.re)
        &&& source_of(self.re) == anchored(self.pattern@)
    }

    /// Reads a format in the syntax of nginx, such as
    /// `$remote_addr [$time_local] $request`, and compiles it. The pieces of
    /// the format are those of its text; the only error is one of the engine.
    ///
    /// A `$` that no name follows is read as a field without a name. Such a
    /// format is refused, and so is one with two fields of one name: the
    /// engine refuses both when it compiles the pattern. In a format that
    /// was accepted every field has a name of its own.
    pub fn new(template: &str) -> (res: Result<Format, FormatParserError>)
        ensures
            match res {
                Ok(format) => {
                    &&& format@ == pieces(template@)
                    &&& all_well_formed(format@)
                    &&& well_named(format@)
                },
                Err(error) => error is CompilationFailed,
            },
    {
        proof {
            vstd::utf8::encode_utf8_valid_utf8(template@);
            vstd::utf8::encode_utf8_decode_utf8(template@);
        }
        read_format(template.as_bytes())
    }

    /// The pieces of the format.
    pub fn parts(&self) -> (res: &Vec<FormatPart>)
        ensures
            segments(res@) == self@,
    {
        &self.parts
    }

    /// The regular expression that a line must match from its first
    /// character to its last: the fragments of the pieces, one after the
    /// other.
    pub fn pattern(&self) -> (res: &str)
        ensures
            res@ == pattern_of(self@),
    {
        proof {
            use_type_invariant(self);
        }
        self.pattern.as_str()
    }

    /// Takes `line` apart. The format must match the whole of `line`: the
    /// result is `None` where it does not, also where it matches a part of
    /// `line` only. The value of each field is a part of `line`. A format
    /// whose pattern holds no operator, as that of a format without fields,
    /// matches the text that the pattern spells and no other line. Where the
    /// pieces of the format are well formed, as those of a format that was
    /// read are, the keys of the result are the names of the fields.
    pub fn parse<'a>(&self, line: &'a str) -> (res: Option<Entry<'a>>)
        ensures
            match res {
                Some(entry) => {
                    &&& whole_match(pattern_of(self@), line@) == Some(entry@)
                    &&& forall|name: Seq<char>| #[trigger]
                        entry@.contains_key(name) ==> is_part_of(entry@[name], line@)
                },
                None => whole_match(pattern_of(self@), line@) is None,
            },
            spelled(pattern_of(self@)) matches Some(text) ==> (res is Some <==> line@ == text),
            res matches Some(entry) ==> (all_well_formed(self@) ==> fields_are_keys(self@, entry@)),
    {
        proof {
            use_type_invariant(self);
        }
        match captures(&self.re, line) {
            Some(captures) => Some(Entry { captures }),
            None => None,
        }
    }

    /// The format made of `parts`, of their `pattern`, and of what
    /// `regex::Regex::new` made of that pattern between anchors.
    pub fn from_compiled(
        parts: Vec<FormatPart>,
        pattern: String,
        compiled: Result<regex::Regex, regex::Error>,
    ) -> (res: Result<Format, FormatParserError>)
        requires
            pattern@ == pattern_of(segments(parts@)),
            compiled matches Ok(regex) ==> plainly_compiled(regex) && source_of(regex) == anchored(
                pattern@,
            ),
        ensures
            match compiled {
                Ok(_) => res matches Ok(format) && format@ == segments(parts@),
                Err(error) => res == Err::<Format, FormatParserError>(
                    FormatParserError::CompilationFailed { inner: error },
                ),
            },
    {
        match compiled {
            Ok(re) => Ok(Format { parts, pattern, re }),
            Err(err) => Err(FormatParserError::CompilationFailed { inner: err }),
        }
    }

    /// The format made of `parts`, unless the engine refuses their pattern.
    /// It refuses the pattern of well formed parts that hold a field without
    /// a name or two fields of one name.
    pub fn from_parts(parts: Vec<FormatPart>) -> (res: Result<Format, FormatParserError>)
        ensures
            match res {
                Ok(format) => {
                    &&& format@ == segments(parts@)
                    &&& all_well_formed(format@) ==> well_named(format@)
                },
                Err(error) => error is CompilationFailed,
            },
    {
        let mut pattern = String::new();
        for i in 0..parts.len()
            invariant
                pattern@ == pattern_of(segments(parts@.take(i as int))),
        {
            proof {
                let upto = segments(parts@.take(i + 1));
                assert(upto.drop_last() =~= segments(parts@.take(i as int)));
            }
            let fragment = parts[i].get_pattern();
            pattern.append(fragment.as_str());
        }
        assert(parts@.take(parts@.len() as int) =~= parts@);
        let mut source = String::from_str("\\A(?:");
        source.append(pattern.as_str());
        source.append(")\\z");
        let compiled = compile(source.as_str());
        Format::from_compiled(parts, pattern, compiled)
    }
}

/// Reads the format that `bytes` hold and compiles it. Bytes that are not
/// UTF-8 are refused as [`read_parts`] refuses them; for bytes that are, the
/// only error is one of the engine. A format with a field without a name, or
/// with two fields of one name, is refused by decision: it is the engine
/// that refuses it when it compiles the pattern.
pub fn read_format(bytes: &[u8]) -> (res: Result<Format, FormatParserError>)
    ensures
        if valid_utf8(bytes@) {
            match res {
                Ok(format) => {
                    &&& format@ == pieces(decode_utf8(bytes@))
                    &&& all_well_formed(format@)
                    &&& well_named(format@)
                },
                Err(error) => error is CompilationFailed,
            }
        } else {
            &&& first_invalid(pieces(bytes@)) matches Some(token)
            &&& res == Err::<Format, FormatParserError>(
                FormatParserError::StringConversionError { inner: utf8_error(token.content()) },
            )
        },
{
    let stack = read_parts(bytes)?;
    Format::from_parts(stack)
}

impl core::str::FromStr for Format {
    type Err = FormatParserError;

    /// The same as [`Format::new`].
    fn from_str(input: &str) -> (res: Result<Format, FormatParserError>)
        ensures
            match res {
                Ok(format) => {
                    &&& format@ == pieces(input@)
                    &&& all_well_formed(format@)
                    &&& well_named(format@)
                },
                Err(error) => error is CompilationFailed,
            },
    {
        Format::new(input)
    }
}

} // verus!
