//! The grammar of a log format.
//!
//! A format is a run of pieces. A `$` opens a field, whose name is the
//! longest run of letters and underscores that follows it; anything else
//! opens literal text, which lasts up to the next `$` or the end of the
//! format. The grammar is the same over the characters of a format and over
//! the bytes of its UTF-8 encoding, so it is stated once, over any alphabet
//! that tells its `$` and its name symbols from the rest.

use vstd::prelude::*;

verus! {

/// The byte that opens a field: `$`.
pub const FIELD_MARK: u8 = 0x24;

/// An alphabet that a format can be written in.
pub trait Symbol: Sized {
    /// The symbol that opens a field.
    spec fn mark() -> Self;

    /// Whether this is the symbol that opens a field.
    spec fn is_mark(self) -> bool;

    /// Whether this symbol may occur in the name of a field.
    spec fn is_name(self) -> bool;

    /// One symbol opens a field, and it cannot occur in a name.
    proof fn lemma_mark(self)
        ensures
            self.is_mark() <==> self == Self::mark(),
            self.is_mark() ==> !self.is_name(),
    ;
}

impl Symbol for u8 {
    open spec fn mark() -> u8 {
        FIELD_MARK
    }

    open spec fn is_mark(self) -> bool {
        self == FIELD_MARK
    }

    open spec fn is_name(self) -> bool {
        ||| 0x61 <= self <= 0x7a
        ||| 0x41 <= self <= 0x5a
        ||| self == 0x5f
    }

    proof fn lemma_mark(self) {
    }
}

impl Symbol for char {
    open spec fn mark() -> char {
        '$'
    }

    open spec fn is_mark(self) -> bool {
        self == '$'
    }

    open spec fn is_name(self) -> bool {
        ||| 'a' <= self <= 'z'
        ||| 'A' <= self <= 'Z'
        ||| self == '_'
    }

    proof fn lemma_mark(self) {
    }
}

/// One piece of a format: the name of a field, without its `$`, or a run of
/// literal text.
pub enum Piece<T> {
    Variable(Seq<T>),
    Fixed(Seq<T>),
}

impl<T: Symbol> Piece<T> {
    /// The name of the field, or the literal text.
    pub open spec fn content(self) -> Seq<T> {
        match self {
            Piece::Variable(name) => name,
            Piece::Fixed(text) => text,
        }
    }

    /// The piece as it is written in a format.
    pub open spec fn written(self) -> Seq<T> {
        match self {
            Piece::Variable(name) => seq![T::mark()] + name,
            Piece::Fixed(text) => text,
        }
    }

    /// Whether the piece is one that reading a format can give: a name of
    /// name symbols, or literal text that is not empty and holds no `$`.
    pub open spec fn well_formed(self) -> bool {
        match self {
            Piece::Variable(name) => forall|j: int|
                0 <= j < name.len() ==> (#[trigger] name[j]).is_name(),
            Piece::Fixed(text) => {
                &&& text.len() > 0
                &&& forall|j: int| 0 <= j < text.len() ==> !(#[trigger] text[j]).is_mark()
            },
        }
    }
}

/// The length of the longest prefix of `s` that holds name symbols only.
pub open spec fn name_len<T: Symbol>(s: Seq<T>) -> nat
    decreases s.len(),
{
    if s.len() > 0 && s[0].is_name() {
        1 + name_len(s.skip(1))
    } else {
        0
    }
}

/// The length of the longest prefix of `s` that holds no `$`.
pub open spec fn text_len<T: Symbol>(s: Seq<T>) -> nat
    decreases s.len(),
{
    if s.len() > 0 && !s[0].is_mark() {
        1 + text_len(s.skip(1))
    } else {
        0
    }
}

/// The pieces of the format `s`, in the order in which they stand in it.
pub open spec fn pieces<T: Symbol>(s: Seq<T>) -> Seq<Piece<T>>
    decreases s.len(),
    via pieces_decreases::<T>
{
    if s.len() == 0 {
        Seq::empty()
    } else if s[0].is_mark() {
        let n = name_len(s.skip(1)) as int;
        seq![Piece::Variable(s.subrange(1, 1 + n))] + pieces(s.skip(1 + n))
    } else {
        let n = text_len(s) as int;
        seq![Piece::Fixed(s.take(n))] + pieces(s.skip(n))
    }
}

#[via_fn]
proof fn pieces_decreases<T: Symbol>(s: Seq<T>) {
    if s.len() > 0 {
        if s[0].is_mark() {
            lemma_name_len_run(s.skip(1));
        } else {
            lemma_text_len_run(s);
        }
    }
}

/// The format that is made of `pieces`, written one after the other.
pub open spec fn written<T: Symbol>(pieces: Seq<Piece<T>>) -> Seq<T>
    decreases pieces.len(),
{
    if pieces.len() == 0 {
        Seq::empty()
    } else {
        pieces[0].written() + written(pieces.drop_first())
    }
}

/// Whether `next` can be read right after `piece`: a field can be read after
/// anything, literal text only after a field, and then it does not begin
/// with a name symbol, which would have been read as part of the name.
pub open spec fn may_follow<T: Symbol>(piece: Piece<T>, next: Piece<T>) -> bool {
    match next {
        Piece::Variable(_) => true,
        Piece::Fixed(text) => piece is Variable && text.len() > 0 && !text[0].is_name(),
    }
}

/// Whether `pieces` are such as reading a format gives them: each is well
/// formed, and each can be read after the one before it.
pub open spec fn is_reading<T: Symbol>(pieces: Seq<Piece<T>>) -> bool {
    &&& forall|k: int| 0 <= k < pieces.len() ==> (#[trigger] pieces[k]).well_formed()
    &&& forall|k: int| 0 < k < pieces.len() ==> may_follow(pieces[k - 1], #[trigger] pieces[k])
}

/// `name_len(s)` is the one `n` such that the first `n` symbols of `s` are
/// name symbols and the symbol after them, if there is one, is not.
pub proof fn lemma_name_len<T: Symbol>(s: Seq<T>, n: int)
    requires
        0 <= n <= s.len(),
        forall|j: int| 0 <= j < n ==> (#[trigger] s[j]).is_name(),
        n < s.len() ==> !s[n].is_name(),
    ensures
        name_len(s) == n,
    decreases n,
{
    if n > 0 {
        lemma_name_len(s.skip(1), n - 1);
    }
}

/// `text_len(s)` is the one `n` such that the first `n` symbols of `s` hold
/// no `$` and the symbol after them, if there is one, is a `$`.
pub proof fn lemma_text_len<T: Symbol>(s: Seq<T>, n: int)
    requires
        0 <= n <= s.len(),
        forall|j: int| 0 <= j < n ==> !(#[trigger] s[j]).is_mark(),
        n < s.len() ==> s[n].is_mark(),
    ensures
        text_len(s) == n,
    decreases n,
{
    if n > 0 {
        lemma_text_len(s.skip(1), n - 1);
    }
}

/// What `name_len` measures lies inside `s` and is a run of name symbols
/// that cannot be made longer.
pub proof fn lemma_name_len_run<T: Symbol>(s: Seq<T>)
    ensures
        name_len(s) <= s.len(),
        forall|j: int| 0 <= j < name_len(s) ==> (#[trigger] s[j]).is_name(),
        name_len(s) < s.len() ==> !s[name_len(s) as int].is_name(),
    decreases s.len(),
{
    if s.len() > 0 && s[0].is_name() {
        let rest = s.skip(1);
        lemma_name_len_run(rest);
        assert forall|j: int| 0 <= j < name_len(s) implies (#[trigger] s[j]).is_name() by {
            if j > 0 {
                assert(s[j] == rest[j - 1]);
            }
        }
    }
}

/// What `text_len` measures lies inside `s` and is a run without `$` that
/// cannot be made longer. It is empty only where `s` is empty or begins with
/// a `$`.
pub proof fn lemma_text_len_run<T: Symbol>(s: Seq<T>)
    ensures
        text_len(s) <= s.len(),
        forall|j: int| 0 <= j < text_len(s) ==> !(#[trigger] s[j]).is_mark(),
        text_len(s) < s.len() ==> s[text_len(s) as int].is_mark(),
        s.len() > 0 && !s[0].is_mark() ==> text_len(s) > 0,
    decreases s.len(),
{
    if s.len() > 0 && !s[0].is_mark() {
        let rest = s.skip(1);
        lemma_text_len_run(rest);
        assert forall|j: int| 0 <= j < text_len(s) implies !(#[trigger] s[j]).is_mark() by {
            if j > 0 {
                assert(s[j] == rest[j - 1]);
            }
        }
    }
}

/// A field whose `$` stands at `a` and whose name ends at `e` is the first
/// piece of what the format holds from `a` on.
pub proof fn lemma_pieces_variable<T: Symbol>(s: Seq<T>, a: int, e: int)
    requires
        0 <= a < e <= s.len(),
        s[a].is_mark(),
        forall|j: int| a < j < e ==> (#[trigger] s[j]).is_name(),
        e < s.len() ==> !s[e].is_name(),
    ensures
        pieces(s.skip(a)) == seq![Piece::Variable(s.subrange(a + 1, e))] + pieces(s.skip(e)),
{
    let t = s.skip(a);
    let n = e - a - 1;
    lemma_name_len(t.skip(1), n);
    assert(t.subrange(1, 1 + n) =~= s.subrange(a + 1, e));
    assert(t.skip(1 + n) =~= s.skip(e));
}

/// Literal text that starts at `a` and ends at `e` is the first piece of
/// what the format holds from `a` on.
pub proof fn lemma_pieces_fixed<T: Symbol>(s: Seq<T>, a: int, e: int)
    requires
        0 <= a < e <= s.len(),
        forall|j: int| a <= j < e ==> !(#[trigger] s[j]).is_mark(),
        e < s.len() ==> s[e].is_mark(),
    ensures
        pieces(s.skip(a)) == seq![Piece::Fixed(s.subrange(a, e))] + pieces(s.skip(e)),
{
    let t = s.skip(a);
    let n = e - a;
    lemma_text_len(t, n);
    assert(t.take(n) =~= s.subrange(a, e));
    assert(t.skip(n) =~= s.skip(e));
}

/// The first piece of a format that is not empty begins where the format
/// begins: with a `$` it is a field, without one it is literal text.
proof fn lemma_pieces_first<T: Symbol>(s: Seq<T>)
    requires
        s.len() > 0,
    ensures
        pieces(s).len() > 0,
        s[0].is_mark() ==> pieces(s)[0] is Variable,
        !s[0].is_mark() ==> (pieces(s)[0] matches Piece::Fixed(text) && text.len() > 0 && text[0]
            == s[0]),
{
    lemma_text_len_run(s);
}

/// A reading that is not empty is written with its first piece first.
proof fn lemma_written_first<T: Symbol>(pieces: Seq<Piece<T>>)
    requires
        pieces.len() > 0,
        pieces[0].well_formed(),
    ensures
        written(pieces).len() > 0,
        pieces[0] is Variable ==> written(pieces)[0] == T::mark(),
        pieces[0] matches Piece::Fixed(text) ==> written(pieces)[0] == text[0],
{
}

/// Every piece that is read from a format is well formed: the name of a
/// field holds name symbols only, and literal text is not empty and holds
/// no `$`.
pub proof fn lemma_pieces_well_formed<T: Symbol>(s: Seq<T>)
    ensures
        forall|k: int| 0 <= k < pieces(s).len() ==> (#[trigger] pieces(s)[k]).well_formed(),
    decreases s.len(),
{
    if s.len() > 0 {
        if s[0].is_mark() {
            let rest = s.skip(1);
            let n = name_len(rest) as int;
            lemma_name_len_run(rest);
            lemma_pieces_well_formed(s.skip(1 + n));
            let name = s.subrange(1, 1 + n);
            let tail = pieces(s.skip(1 + n));
            assert forall|j: int| 0 <= j < name.len() implies (#[trigger] name[j]).is_name() by {
                assert(name[j] == rest[j]);
            }
            assert forall|k: int| 0 <= k < pieces(s).len() implies (
            #[trigger] pieces(s)[k]).well_formed() by {
                if k > 0 {
                    assert(pieces(s)[k] == tail[k - 1]);
                }
            }
        } else {
            let n = text_len(s) as int;
            lemma_text_len_run(s);
            lemma_pieces_well_formed(s.skip(n));
            let tail = pieces(s.skip(n));
            assert forall|k: int| 0 <= k < pieces(s).len() implies (
            #[trigger] pieces(s)[k]).well_formed() by {
                if k > 0 {
                    assert(pieces(s)[k] == tail[k - 1]);
                }
            }
        }
    }
}

/// What is read from a format is a reading: each piece is well formed and
/// can be read after the one before it.
pub proof fn lemma_pieces_is_reading<T: Symbol>(s: Seq<T>)
    ensures
        is_reading(pieces(s)),
    decreases s.len(),
{
    lemma_pieces_well_formed(s);
    if s.len() > 0 {
        let rest = if s[0].is_mark() {
            s.skip(1 + name_len(s.skip(1)) as int)
        } else {
            s.skip(text_len(s) as int)
        };
        lemma_name_len_run(s.skip(1));
        lemma_text_len_run(s);
        lemma_pieces_is_reading(rest);
        let tail = pieces(rest);
        if rest.len() > 0 {
            lemma_pieces_first(rest);
            s[0].lemma_mark();
            rest[0].lemma_mark();
        }
        assert forall|k: int| 0 < k < pieces(s).len() implies may_follow(
            pieces(s)[k - 1],
            #[trigger] pieces(s)[k],
        ) by {
            assert(pieces(s)[k] == tail[k - 1]);
            if k > 1 {
                assert(pieces(s)[k - 1] == tail[k - 2]);
            }
        }
    }
}

/// Reading a format loses nothing: its pieces, written one after the other,
/// are the format.
pub proof fn lemma_pieces_written<T: Symbol>(s: Seq<T>)
    ensures
        written(pieces(s)) == s,
    decreases s.len(),
{
    if s.len() == 0 {
        assert(written(pieces(s)) =~= s);
    } else if s[0].is_mark() {
        let n = name_len(s.skip(1)) as int;
        lemma_name_len_run(s.skip(1));
        s[0].lemma_mark();
        let first = Piece::Variable(s.subrange(1, 1 + n));
        let tail = pieces(s.skip(1 + n));
        lemma_pieces_written(s.skip(1 + n));
        assert((seq![first] + tail).drop_first() =~= tail);
        assert(written(pieces(s)) =~= s);
    } else {
        let n = text_len(s) as int;
        lemma_text_len_run(s);
        let first = Piece::Fixed(s.take(n));
        let tail = pieces(s.skip(n));
        lemma_pieces_written(s.skip(n));
        assert((seq![first] + tail).drop_first() =~= tail);
        assert(written(pieces(s)) =~= s);
    }
}

/// A reading is read back from what it writes: there is one way only to
/// take a format apart.
pub proof fn lemma_reading_of_written<T: Symbol>(readings: Seq<Piece<T>>)
    requires
        is_reading(readings),
    ensures
        pieces(written(readings)) == readings,
    decreases readings.len(),
{
    if readings.len() == 0 {
        assert(pieces(written(readings)) =~= readings);
    } else {
        let first = readings[0];
        let rest = readings.drop_first();
        let s = written(readings);
        let tail = written(rest);
        assert forall|k: int| 0 < k < rest.len() implies may_follow(
            rest[k - 1],
            #[trigger] rest[k],
        ) by {
            assert(rest[k] == readings[k + 1]);
        }
        assert forall|k: int| 0 <= k < rest.len() implies (#[trigger] rest[k]).well_formed() by {
            assert(rest[k] == readings[k + 1]);
        }
        lemma_reading_of_written(rest);
        T::mark().lemma_mark();
        if rest.len() > 0 {
            assert(rest[0] == readings[1]);
            lemma_written_first(rest);
        } else {
            assert(tail =~= Seq::<T>::empty());
        }
        let e = first.written().len() as int;
        assert(s =~= first.written() + tail);
        assert(s.skip(0) =~= s);
        assert(s.skip(e) =~= tail);
        match first {
            Piece::Variable(name) => {
                assert forall|j: int| 0 < j < e implies (#[trigger] s[j]).is_name() by {
                    assert(s[j] == name[j - 1]);
                }
                lemma_pieces_variable(s, 0, e);
                assert(s.subrange(1, e) =~= name);
            },
            Piece::Fixed(text) => {
                assert forall|j: int| 0 <= j < e implies !(#[trigger] s[j]).is_mark() by {
                    assert(s[j] == text[j]);
                }
                lemma_pieces_fixed(s, 0, e);
                assert(s.subrange(0, e) =~= text);
            },
        }
        assert(seq![first] + rest =~= readings);
    }
}

/// A format without a `$` that is not empty is one piece of literal text:
/// the format itself.
pub proof fn lemma_literal_only<T: Symbol>(s: Seq<T>)
    requires
        s.len() > 0,
        forall|j: int| 0 <= j < s.len() ==> !(#[trigger] s[j]).is_mark(),
    ensures
        pieces(s) == seq![Piece::Fixed(s)],
{
    lemma_text_len(s, s.len() as int);
    assert(s.take(s.len() as int) =~= s);
    assert(s.skip(s.len() as int) =~= Seq::<T>::empty());
    assert(pieces(Seq::<T>::empty()) =~= Seq::<Piece<T>>::empty());
}

/// Two fields that stand side by side, with nothing between the name of the
/// first and the `$` of the second, are read as two fields, in their order.
pub proof fn lemma_adjacent_fields<T: Symbol>(first: Seq<T>, second: Seq<T>)
    requires
        forall|j: int| 0 <= j < first.len() ==> (#[trigger] first[j]).is_name(),
        forall|j: int| 0 <= j < second.len() ==> (#[trigger] second[j]).is_name(),
    ensures
        pieces(seq![T::mark()] + first + seq![T::mark()] + second) == seq![
            Piece::Variable(first),
            Piece::Variable(second),
        ],
{
    let mark = T::mark();
    mark.lemma_mark();
    let s = seq![mark] + first + seq![mark] + second;
    let middle = 1 + first.len() as int;
    lemma_pieces_variable(s, 0, middle);
    lemma_pieces_variable(s, middle, s.len() as int);
    assert(s.skip(0) =~= s);
    assert(s.subrange(1, middle) =~= first);
    assert(s.subrange(middle + 1, s.len() as int) =~= second);
}

} // verus!
