//! Formats as bytes and formats as text.
//!
//! A format is read from bytes, and its pieces become text one by one. This
//! file says when that works and proves that nothing is lost on the way: the
//! pieces of the bytes of a text, decoded, are the pieces of the text.

use vstd::prelude::*;
use vstd::utf8::{
    decode_utf8, decode_utf8_encode_utf8, encode_scalar, encode_utf8, encode_utf8_decode_utf8,
    encode_utf8_first_scalar, is_char_boundary, is_char_boundary_iff_not_is_continuation_byte,
    is_char_boundary_start_end_of_seq, valid_utf8, valid_utf8_concat, valid_utf8_split,
};

use crate::syntax::{
    lemma_name_len, lemma_name_len_run, lemma_text_len, lemma_text_len_run, name_len, pieces,
    text_len, Piece, Symbol,
};

verus! {

/// A piece of a format over its bytes.
pub type Token = Piece<u8>;

/// A piece of a format as text.
pub type Segment = Piece<char>;

/// Whether the bytes of `token` are UTF-8.
pub open spec fn is_text(token: Token) -> bool {
    valid_utf8(token.content())
}

/// The piece `token` as text.
pub open spec fn decoded_piece(token: Token) -> Segment
    recommends
        is_text(token),
{
    match token {
        Piece::Variable(name) => Piece::Variable(decode_utf8(name)),
        Piece::Fixed(text) => Piece::Fixed(decode_utf8(text)),
    }
}

/// The pieces `tokens`, each as text.
pub open spec fn decoded(tokens: Seq<Token>) -> Seq<Segment> {
    tokens.map_values(|token: Token| decoded_piece(token))
}

/// The first of `tokens` whose bytes are not UTF-8.
pub open spec fn first_invalid(tokens: Seq<Token>) -> Option<Token>
    decreases tokens.len(),
{
    if tokens.len() == 0 {
        None
    } else if !is_text(tokens[0]) {
        Some(tokens[0])
    } else {
        first_invalid(tokens.drop_first())
    }
}

/// `first_invalid` passes over pieces that are text.
pub proof fn lemma_first_invalid_skips(head: Seq<Token>, tail: Seq<Token>)
    requires
        forall|k: int| 0 <= k < head.len() ==> is_text(#[trigger] head[k]),
    ensures
        first_invalid(head + tail) == first_invalid(tail),
    decreases head.len(),
{
    let all = head + tail;
    if head.len() == 0 {
        assert(all =~= tail);
    } else {
        assert(all[0] == head[0]);
        assert(all.drop_first() =~= head.drop_first() + tail);
        assert forall|k: int| 0 <= k < head.drop_first().len() implies is_text(
            #[trigger] head.drop_first()[k],
        ) by {
            assert(head.drop_first()[k] == head[k + 1]);
        }
        lemma_first_invalid_skips(head.drop_first(), tail);
    }
}

/// In a run of ASCII bytes at the start of UTF-8 text, a character begins at
/// every byte and after the last.
proof fn lemma_ascii_run_boundary(s: Seq<u8>, n: int)
    requires
        valid_utf8(s),
        0 <= n <= s.len(),
        forall|j: int| 0 <= j < n ==> #[trigger] s[j] < 0x80,
    ensures
        is_char_boundary(s, n),
    decreases n,
{
    if n > 0 {
        let rest = s.subrange(1, s.len() as int);
        lemma_ascii_run_boundary(rest, n - 1);
    }
}

/// The pieces of a format that is UTF-8 are UTF-8, each of them.
pub proof fn lemma_pieces_of_text(s: Seq<u8>)
    requires
        valid_utf8(s),
    ensures
        forall|k: int| 0 <= k < pieces(s).len() ==> is_text(#[trigger] pieces(s)[k]),
        first_invalid(pieces(s)) is None,
    decreases s.len(),
{
    if s.len() > 0 {
        if s[0].is_mark() {
            let r = s.skip(1);
            let n = name_len(r) as int;
            lemma_name_len_run(r);
            lemma_ascii_run_boundary(r, n);
            valid_utf8_split(r, n);
            assert(s.subrange(1, 1 + n) =~= r.subrange(0, n));
            assert(s.skip(1 + n) =~= r.subrange(n, r.len() as int));
            lemma_pieces_of_text(s.skip(1 + n));
        } else {
            let n = text_len(s) as int;
            lemma_text_len_run(s);
            if n == s.len() {
                is_char_boundary_start_end_of_seq(s);
            } else {
                is_char_boundary_iff_not_is_continuation_byte(s, n);
            }
            valid_utf8_split(s, n);
            lemma_pieces_of_text(s.skip(n));
        }
    }
    lemma_first_invalid_skips(pieces(s), Seq::empty());
}

/// A format whose pieces are UTF-8, each of them, is UTF-8.
pub proof fn lemma_text_of_pieces(s: Seq<u8>)
    requires
        first_invalid(pieces(s)) is None,
    ensures
        valid_utf8(s),
    decreases s.len(),
{
    if s.len() > 0 {
        if s[0].is_mark() {
            let n = name_len(s.skip(1)) as int;
            lemma_name_len_run(s.skip(1));
            let mark = seq![s[0]];
            let name = s.subrange(1, 1 + n);
            let rest = s.skip(1 + n);
            let tail = pieces(rest);
            assert((seq![Piece::Variable(name)] + tail).drop_first() =~= tail);
            lemma_text_of_pieces(rest);
            assert(valid_utf8(mark)) by {
                let b = s[0];
                assert(b & 0x7f == b) by (bit_vector)
                    requires
                        b == 0x24,
                ;
                reveal_with_fuel(valid_utf8, 2);
            }
            valid_utf8_concat(mark, name);
            valid_utf8_concat(mark + name, rest);
            assert(s =~= mark + name + rest);
        } else {
            let n = text_len(s) as int;
            lemma_text_len_run(s);
            let text = s.take(n);
            let rest = s.skip(n);
            let tail = pieces(rest);
            assert((seq![Piece::Fixed(text)] + tail).drop_first() =~= tail);
            lemma_text_of_pieces(rest);
            valid_utf8_concat(text, rest);
            assert(s =~= text + rest);
        }
    }
}

/// The pieces of a format that is UTF-8, decoded, are the pieces of the text
/// that the format encodes.
pub proof fn lemma_decoded_pieces(s: Seq<u8>)
    requires
        valid_utf8(s),
    ensures
        decoded(pieces(s)) == pieces(decode_utf8(s)),
{
    decode_utf8_encode_utf8(s);
    lemma_pieces_of_encoding(decode_utf8(s));
}

/// The order of characters is the order of their numbers.
proof fn lemma_char_number(c: char)
    ensures
        c <= '\u{7f}' <==> c as u32 <= 0x7f,
        c.is_mark() <==> c as u32 == 0x24,
        c.is_name() <==> (c as u32 <= 0x7f && (c as u8).is_name()),
        c as u32 <= 0x7f ==> c as u8 == (c as u32) as u8,
{
}

/// How the first character of a text shows in its bytes: an ASCII character
/// is one byte, the character itself; any other character is two to four
/// bytes, none of them ASCII. The bytes of the other characters follow.
pub proof fn lemma_first_char(chars: Seq<char>)
    requires
        chars.len() > 0,
    ensures
        ({
            let bytes = encode_utf8(chars);
            let width = encode_scalar(chars[0] as u32).len();
            &&& 1 <= width <= 4
            &&& width <= bytes.len()
            &&& bytes.skip(width as int) == encode_utf8(chars.drop_first())
            &&& chars[0] <= '\u{7f}' ==> width == 1 && bytes[0] == chars[0] as u8
            &&& chars[0] > '\u{7f}' ==> forall|j: int| 0 <= j < width ==> #[trigger] bytes[j] >= 0x80
            &&& bytes[0].is_mark() <==> chars[0].is_mark()
            &&& bytes[0].is_name() <==> chars[0].is_name()
            &&& chars[0].is_name() ==> width == 1
            &&& !chars[0].is_mark() ==> forall|j: int|
                0 <= j < width ==> !(#[trigger] bytes[j]).is_mark()
        }),
{
    let bytes = encode_utf8(chars);
    let scalar = chars[0] as u32;
    let first = encode_scalar(scalar);
    let width = first.len() as int;
    vstd::utf8::char_is_scalar(chars[0]);
    lemma_char_number(chars[0]);
    encode_utf8_first_scalar(chars);
    assert(bytes =~= first + encode_utf8(chars.drop_first()));
    assert(bytes.skip(width) =~= encode_utf8(chars.drop_first()));
    if chars[0] <= '\u{7f}' {
        assert(scalar as u8 == vstd::utf8::leading_byte_width_1(scalar)) by (bit_vector)
            requires
                vstd::utf8::has_width_1_encoding(scalar),
        ;
        assert(bytes[0] == first[0]);
        assert(first[0] == vstd::utf8::leading_byte_width_1(scalar));
    } else {
        assert(width == vstd::utf8::length_of_first_scalar(bytes));
        assert(vstd::utf8::valid_leading_and_continuation_bytes_first_codepoint(bytes));
        assert forall|j: int| 0 <= j < width implies #[trigger] bytes[j] >= 0x80 by {
            if j == 0 {
            } else if j == 1 {
                assert(vstd::utf8::is_continuation_byte(bytes[1]));
            } else if j == 2 {
                assert(vstd::utf8::is_continuation_byte(bytes[2]));
            } else {
                assert(vstd::utf8::is_continuation_byte(bytes[3]));
            }
        }
    }
}

/// The bytes of a text that begins with a name: the name is as many bytes as
/// characters, each of them a name byte, and the byte after them is none.
proof fn lemma_encoded_name(chars: Seq<char>, n: int)
    requires
        0 <= n <= chars.len(),
        forall|j: int| 0 <= j < n ==> (#[trigger] chars[j]).is_name(),
        n < chars.len() ==> !chars[n].is_name(),
    ensures
        ({
            let bytes = encode_utf8(chars);
            &&& n <= bytes.len()
            &&& forall|j: int| 0 <= j < n ==> (#[trigger] bytes[j]).is_name()
            &&& n < bytes.len() ==> !bytes[n].is_name()
            &&& bytes.take(n) == encode_utf8(chars.take(n))
            &&& bytes.skip(n) == encode_utf8(chars.skip(n))
        }),
    decreases n,
{
    let bytes = encode_utf8(chars);
    if n == 0 {
        assert(bytes.take(0) =~= encode_utf8(chars.take(0)));
        assert(chars.skip(0) =~= chars);
        assert(bytes.skip(0) =~= bytes);
        if chars.len() > 0 {
            lemma_first_char(chars);
        }
    } else {
        let rest = chars.drop_first();
        let rest_bytes = encode_utf8(rest);
        assert(chars[0].is_name());
        lemma_first_char(chars);
        assert forall|j: int| 0 <= j < n - 1 implies (#[trigger] rest[j]).is_name() by {
            assert(rest[j] == chars[j + 1]);
        }
        lemma_encoded_name(rest, n - 1);
        assert(bytes =~= seq![bytes[0]] + rest_bytes);
        assert forall|j: int| 0 <= j < n implies (#[trigger] bytes[j]).is_name() by {
            if j > 0 {
                assert(bytes[j] == rest_bytes[j - 1]);
            }
        }
        if n < bytes.len() {
            assert(bytes[n] == rest_bytes[n - 1]);
        }
        assert(chars.take(n).drop_first() =~= rest.take(n - 1));
        assert(chars.take(n)[0] == chars[0]);
        assert(bytes.take(n) =~= seq![bytes[0]] + rest_bytes.take(n - 1));
        assert(encode_utf8(chars.take(n)) =~= encode_scalar(chars[0] as u32) + encode_utf8(
            rest.take(n - 1),
        ));
        assert(encode_scalar(chars[0] as u32) =~= seq![bytes[0]]);
        assert(chars.skip(n) =~= rest.skip(n - 1));
        assert(bytes.skip(n) =~= rest_bytes.skip(n - 1));
    }
}

/// The bytes of a text that begins with literal text: the literal text is
/// bytes without a `$`, and the byte after them is a `$`.
proof fn lemma_encoded_text(chars: Seq<char>, n: int)
    requires
        0 <= n <= chars.len(),
        forall|j: int| 0 <= j < n ==> !(#[trigger] chars[j]).is_mark(),
        n < chars.len() ==> chars[n].is_mark(),
    ensures
        ({
            let bytes = encode_utf8(chars);
            let m = encode_utf8(chars.take(n)).len() as int;
            &&& m <= bytes.len()
            &&& n > 0 ==> m > 0
            &&& forall|j: int| 0 <= j < m ==> !(#[trigger] bytes[j]).is_mark()
            &&& m < bytes.len() ==> bytes[m].is_mark()
            &&& bytes.take(m) == encode_utf8(chars.take(n))
            &&& bytes.skip(m) == encode_utf8(chars.skip(n))
        }),
    decreases n,
{
    let bytes = encode_utf8(chars);
    let m = encode_utf8(chars.take(n)).len() as int;
    if n == 0 {
        assert(chars.take(0) =~= Seq::<char>::empty());
        assert(bytes.take(0) =~= encode_utf8(chars.take(0)));
        assert(chars.skip(0) =~= chars);
        assert(bytes.skip(0) =~= bytes);
        if chars.len() > 0 {
            lemma_first_char(chars);
        }
    } else {
        let rest = chars.drop_first();
        let rest_bytes = encode_utf8(rest);
        let first = encode_scalar(chars[0] as u32);
        let width = first.len() as int;
        assert(!chars[0].is_mark());
        lemma_first_char(chars);
        assert forall|j: int| 0 <= j < n - 1 implies !(#[trigger] rest[j]).is_mark() by {
            assert(rest[j] == chars[j + 1]);
        }
        lemma_encoded_text(rest, n - 1);
        let rest_m = encode_utf8(rest.take(n - 1)).len() as int;
        assert(bytes =~= first + rest_bytes);
        assert(chars.take(n).drop_first() =~= rest.take(n - 1));
        assert(chars.take(n)[0] == chars[0]);
        assert(encode_utf8(chars.take(n)) =~= first + encode_utf8(rest.take(n - 1)));
        assert(m == width + rest_m);
        assert forall|j: int| 0 <= j < m implies !(#[trigger] bytes[j]).is_mark() by {
            if j >= width {
                assert(bytes[j] == rest_bytes[j - width]);
            }
        }
        if m < bytes.len() {
            assert(bytes[m] == rest_bytes[rest_m]);
        }
        assert(bytes.take(m) =~= first + rest_bytes.take(rest_m));
        assert(chars.skip(n) =~= rest.skip(n - 1));
        assert(bytes.skip(m) =~= rest_bytes.skip(rest_m));
    }
}

/// Reading a format from the bytes of a text and reading it from the text
/// give the same pieces.
pub proof fn lemma_pieces_of_encoding(chars: Seq<char>)
    ensures
        decoded(pieces(encode_utf8(chars))) == pieces(chars),
    decreases chars.len(),
{
    let bytes = encode_utf8(chars);
    if chars.len() == 0 {
        assert(decoded(pieces(bytes)) =~= pieces(chars));
    } else {
        lemma_first_char(chars);
        if chars[0].is_mark() {
            let rest = chars.skip(1);
            let rest_bytes = encode_utf8(rest);
            let n = name_len(rest) as int;
            assert(rest =~= chars.drop_first());
            assert(bytes.skip(1) == rest_bytes);
            lemma_name_len_run(rest);
            lemma_encoded_name(rest, n);
            lemma_name_len(rest_bytes, n);
            let name = bytes.subrange(1, 1 + n);
            assert(name =~= rest_bytes.take(n));
            assert(bytes.skip(1 + n) =~= rest_bytes.skip(n));
            assert(chars.subrange(1, 1 + n) =~= rest.take(n));
            assert(chars.skip(1 + n) =~= rest.skip(n));
            encode_utf8_decode_utf8(rest.take(n));
            lemma_pieces_of_encoding(chars.skip(1 + n));
            let tail = pieces(bytes.skip(1 + n));
            assert(pieces(bytes) == seq![Piece::Variable(name)] + tail);
            assert(decoded(seq![Piece::Variable(name)] + tail) =~= seq![
                decoded_piece(Piece::Variable(name)),
            ] + decoded(tail));
        } else {
            let n = text_len(chars) as int;
            lemma_text_len_run(chars);
            lemma_encoded_text(chars, n);
            let m = encode_utf8(chars.take(n)).len() as int;
            assert(!bytes[0].is_mark());
            lemma_text_len(bytes, m);
            let text = bytes.take(m);
            encode_utf8_decode_utf8(chars.take(n));
            lemma_pieces_of_encoding(chars.skip(n));
            let tail = pieces(bytes.skip(m));
            assert(pieces(bytes) == seq![Piece::Fixed(text)] + tail);
            assert(decoded(seq![Piece::Fixed(text)] + tail) =~= seq![
                decoded_piece(Piece::Fixed(text)),
            ] + decoded(tail));
        }
    }
}

} // verus!
