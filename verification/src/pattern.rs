//! The regular expression that a format is matched with.
//!
//! Each piece of a format gives a fragment: a field gives a group that is
//! named after it, literal text gives itself with its meta characters
//! escaped. The pattern of the format is the fragments one after the other,
//! with nothing between them. A line is matched against the pattern as a
//! whole, from its first character to its last: the engine is handed the
//! pattern between anchors.

use vstd::prelude::*;

use crate::encoding::Segment;
use crate::engine::{anchored, escaped, is_meta_character, search, spelled};
use crate::syntax::{
    lemma_literal_only, lemma_name_len_run, lemma_text_len_run, name_len, pieces, text_len, Piece,
    Symbol,
};

verus! {

/// What the value of the field called `name` must look like, as a regular
/// expression: three digits for `status`, digits for `body_bytes_sent`,
/// anything for every other field.
pub open spec fn constraint(name: Seq<char>) -> Seq<char> {
    if name == "status"@ {
        "\\d{3}"@
    } else if name == "body_bytes_sent"@ {
        "\\d+"@
    } else {
        ".*"@
    }
}

/// The regular expression for one piece: a group that is named after the
/// field, or the literal text with its meta characters escaped.
pub open spec fn fragment(segment: Segment) -> Seq<char> {
    match segment {
        Piece::Variable(name) => "(?P<"@ + name + ">"@ + constraint(name) + ")"@,
        Piece::Fixed(text) => escaped(text),
    }
}

/// The regular expression for a format: the fragments of its pieces, one
/// after the other.
pub open spec fn pattern_of(segments: Seq<Segment>) -> Seq<char>
    decreases segments.len(),
{
    if segments.len() == 0 {
        Seq::empty()
    } else {
        pattern_of(segments.drop_last()) + fragment(segments.last())
    }
}

/// Whether each of `pieces` is well formed: a name of letters and
/// underscores, or literal text that is not empty and holds no `$`.
pub open spec fn all_well_formed(pieces: Seq<Segment>) -> bool {
    forall|k: int| 0 <= k < pieces.len() ==> (#[trigger] pieces[k]).well_formed()
}

/// Whether `name` is the name of a field among `pieces`.
pub open spec fn is_field(pieces: Seq<Segment>, name: Seq<char>) -> bool {
    exists|k: int| 0 <= k < pieces.len() && #[trigger] pieces[k] == Piece::<char>::Variable(name)
}

/// Whether every field among `pieces` has a name, and a name that no other
/// field has.
pub open spec fn well_named(pieces: Seq<Segment>) -> bool {
    &&& !is_field(pieces, Seq::empty())
    &&& forall|j: int, k: int|
        0 <= j < k < pieces.len() && pieces[j] is Variable ==> #[trigger] pieces[j]
            != #[trigger] pieces[k]
}

/// Whether the keys of `values` are the names of the fields among `pieces`.
pub open spec fn fields_are_keys(pieces: Seq<Segment>, values: Map<Seq<char>, Seq<char>>) -> bool {
    forall|name: Seq<char>| #[trigger] values.contains_key(name) <==> is_field(pieces, name)
}

/// What `pattern` finds when it is matched against the whole of `line`: the
/// value of each field, by the field's name, or `None` where `pattern` does
/// not match `line` from its first character to its last.
pub open spec fn whole_match(pattern: Seq<char>, line: Seq<char>) -> Option<
    Map<Seq<char>, Seq<char>>,
> {
    search(anchored(pattern), line)
}

/// Literal text needs no escaping by the caller: whatever meta characters
/// it holds, its fragment holds no operator and spells the text itself.
pub proof fn lemma_escaped_spells(text: Seq<char>)
    ensures
        spelled(escaped(text)) == Some(text),
    decreases text.len(),
{
    if text.len() > 0 {
        let rest = text.drop_first();
        let pattern = escaped(text);
        lemma_escaped_spells(rest);
        if is_meta_character(text[0]) {
            assert(pattern.skip(2) =~= escaped(rest));
        } else {
            assert(pattern.skip(1) =~= escaped(rest));
        }
    }
}

/// A `$` that no name follows, at `at` in `template`, is read as a field
/// without a name. A format that was accepted is well named, so a format
/// with such a `$` is not accepted.
pub proof fn lemma_bare_mark(template: Seq<char>, at: int)
    requires
        0 <= at < template.len(),
        template[at].is_mark(),
        at + 1 < template.len() ==> !template[at + 1].is_name(),
    ensures
        is_field(pieces(template), Seq::empty()),
        !well_named(pieces(template)),
    decreases template.len(),
{
    let nameless = Piece::<char>::Variable(Seq::empty());
    if template[0].is_mark() {
        let rest = template.skip(1);
        let n = name_len(rest) as int;
        lemma_name_len_run(rest);
        if at == 0 {
            assert(template.subrange(1, 1 + n) =~= Seq::<char>::empty());
            assert(pieces(template)[0] == nameless);
        } else {
            assert(template[at] == rest[at - 1]);
            lemma_bare_mark(template.skip(1 + n), at - 1 - n);
            let tail = pieces(template.skip(1 + n));
            let k = choose|k: int| 0 <= k < tail.len() && tail[k] == nameless;
            assert(pieces(template)[k + 1] == nameless);
        }
    } else {
        let n = text_len(template) as int;
        lemma_text_len_run(template);
        lemma_bare_mark(template.skip(n), at - n);
        let tail = pieces(template.skip(n));
        let k = choose|k: int| 0 <= k < tail.len() && tail[k] == nameless;
        assert(pieces(template)[k + 1] == nameless);
    }
}

/// The pattern of a format without a `$` that is not empty is the format
/// itself, escaped.
pub proof fn lemma_literal_pattern(template: Seq<char>)
    requires
        template.len() > 0,
        forall|j: int| 0 <= j < template.len() ==> !(#[trigger] template[j]).is_mark(),
    ensures
        pieces(template) == seq![Piece::Fixed(template)],
        pattern_of(pieces(template)) == escaped(template),
        spelled(pattern_of(pieces(template))) == Some(template),
{
    lemma_literal_only(template);
    lemma_escaped_spells(template);
    let one = seq![Piece::Fixed(template)];
    assert(pattern_of(one.drop_last()) =~= Seq::<char>::empty());
}

} // verus!
