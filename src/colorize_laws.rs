//! What holds of the colorizer's output as a whole.
use crate::colorize::{
    chunk_len, chunks, first_chunk, is_bracket, is_quote, lemma_chunk_len_bound,
    lemma_number_len_bound, lemma_number_len_split, lemma_run_len_bound, number_len, number_pieces, piece_rendered,
    rendered, run_len, word_len, CharClass, Piece,
};
use crate::paint::{ascii_digit, esc, painted, style_reset, style_start, Color};
use vstd::prelude::*;

verus! {

/// `s` holds no escape character.
pub open spec fn no_esc(s: Seq<char>) -> bool {
    forall|i: int| 0 <= i < s.len() ==> s[i] != esc()
}

/// The length of the rest of an escape sequence: up to and including the
/// first `m`, or all of `s` if it has none.
pub open spec fn escape_len(s: Seq<char>) -> nat
    decreases s.len(),
{
    if s.len() == 0 {
        0
    } else if s[0] == 'm' {
        1
    } else {
        1 + escape_len(s.drop_first())
    }
}

proof fn lemma_escape_len_bound(s: Seq<char>)
    ensures
        escape_len(s) <= s.len(),
    decreases s.len(),
{
    if s.len() > 0 && s[0] != 'm' {
        lemma_escape_len_bound(s.drop_first());
    }
}

#[via_fn]
proof fn strip_decreases(s: Seq<char>) {
    if s.len() > 0 {
        lemma_escape_len_bound(s.drop_first());
    }
}

/// The text that a terminal shows of `s`: `s` without its escape
/// sequences, each of which runs from the escape character to the next `m`.
pub open spec fn strip_escapes(s: Seq<char>) -> Seq<char>
    decreases s.len(),
    via strip_decreases
{
    if s.len() == 0 {
        Seq::empty()
    } else if s[0] == esc() {
        strip_escapes(s.skip(1 + escape_len(s.drop_first()) as int))
    } else {
        seq![s[0]] + strip_escapes(s.drop_first())
    }
}

/// The text of the pieces, one after the other.
pub open spec fn pieces_text(pieces: Seq<Piece>) -> Seq<char> {
    pieces.map_values(|p: Piece| p.1).flatten()
}

proof fn lemma_strip_plain(t: Seq<char>, y: Seq<char>)
    requires
        no_esc(t),
    ensures
        strip_escapes(t + y) == t + strip_escapes(y),
    decreases t.len(),
{
    if t.len() > 0 {
        lemma_strip_plain(t.drop_first(), y);
        assert((t + y).drop_first() =~= t.drop_first() + y);
        assert(t =~= seq![t[0]] + t.drop_first());
    } else {
        assert(t + y =~= y);
    }
}

proof fn lemma_escape_len_prefix(q: Seq<char>, y: Seq<char>)
    requires
        q.len() >= 1,
        q.last() == 'm',
        forall|i: int| 0 <= i < q.len() - 1 ==> q[i] != 'm',
    ensures
        escape_len(q + y) == q.len(),
    decreases q.len(),
{
    if q.len() > 1 {
        lemma_escape_len_prefix(q.drop_first(), y);
        assert((q + y).drop_first() =~= q.drop_first() + y);
    }
}

/// An escape sequence at the front leaves nothing behind.
proof fn lemma_strip_sequence(p: Seq<char>, y: Seq<char>)
    requires
        p.len() >= 2,
        p[0] == esc(),
        p.last() == 'm',
        forall|i: int| 1 <= i < p.len() - 1 ==> p[i] != 'm',
    ensures
        strip_escapes(p + y) == strip_escapes(y),
{
    let q = p.drop_first();
    lemma_escape_len_prefix(q, y);
    assert((p + y).drop_first() =~= q + y);
    assert((p + y).skip(p.len() as int) =~= y);
}

proof fn lemma_strip_styled(c: Color, t: Seq<char>, y: Seq<char>)
    requires
        no_esc(t),
    ensures
        strip_escapes(style_start(c) + t + style_reset() + y) == t + strip_escapes(y),
{
    let s = style_start(c);
    let r = style_reset();
    assert(s.len() == 7 && s[0] == esc() && s.last() == 'm');
    assert(forall|i: int| 1 <= i < s.len() - 1 ==> s[i] != 'm');
    assert(r.len() == 4 && r[0] == esc() && r.last() == 'm');
    assert(forall|i: int| 1 <= i < r.len() - 1 ==> r[i] != 'm');
    lemma_strip_sequence(s, t + (r + y));
    lemma_strip_plain(t, r + y);
    lemma_strip_sequence(r, y);
    assert(s + t + r + y =~= s + (t + (r + y)));
}

proof fn lemma_strip_piece(out: Seq<char>, p: Piece, y: Seq<char>)
    requires
        piece_rendered(out, p),
        no_esc(p.1),
    ensures
        strip_escapes(out + y) == p.1 + strip_escapes(y),
{
    match p.0 {
        None => lemma_strip_plain(p.1, y),
        Some(c) => {
            assert forall|i: int| 0 <= i && i + 4 <= p.1.len() implies #[trigger] p.1.subrange(
                i,
                i + 4,
            ) != style_reset() by {
                assert(p.1.subrange(i, i + 4)[0] == p.1[i]);
            }
            assert(!crate::paint::holds_reset(p.1));
            if out == p.1 {
                lemma_strip_plain(p.1, y);
            } else {
                lemma_strip_styled(c, p.1, y);
            }
        },
    }
}

proof fn lemma_pieces_text_push(pieces: Seq<Piece>)
    requires
        pieces.len() > 0,
    ensures
        pieces_text(pieces) == pieces_text(pieces.drop_last()) + pieces.last().1,
{
    let f = |p: Piece| p.1;
    assert(pieces.map_values(f) =~= pieces.drop_last().map_values(f).push(pieces.last().1));
    pieces.drop_last().map_values(f).lemma_flatten_push(pieces.last().1);
}

proof fn lemma_no_esc_split(a: Seq<char>, b: Seq<char>)
    requires
        no_esc(a + b),
    ensures
        no_esc(a),
        no_esc(b),
{
    assert forall|i: int| 0 <= i < a.len() implies a[i] != esc() by {
        assert((a + b)[i] == a[i]);
    }
    assert forall|i: int| 0 <= i < b.len() implies b[i] != esc() by {
        assert((a + b)[a.len() + i] == b[i]);
    }
}

proof fn lemma_strip_rendered(out: Seq<char>, pieces: Seq<Piece>, y: Seq<char>)
    requires
        rendered(out, pieces),
        no_esc(pieces_text(pieces)),
    ensures
        strip_escapes(out + y) == pieces_text(pieces) + strip_escapes(y),
    decreases pieces.len(),
{
    if pieces.len() == 0 {
        assert(out + y =~= y);
        assert(pieces_text(pieces) =~= Seq::<char>::empty());
    } else {
        let k = choose|k: int|
            #![trigger out.take(k)]
            0 <= k <= out.len() && rendered(out.take(k), pieces.drop_last()) && piece_rendered(
                out.skip(k),
                pieces.last(),
            );
        lemma_pieces_text_push(pieces);
        lemma_no_esc_split(pieces_text(pieces.drop_last()), pieces.last().1);
        lemma_strip_piece(out.skip(k), pieces.last(), y);
        lemma_strip_rendered(out.take(k), pieces.drop_last(), out.skip(k) + y);
        assert(out + y =~= out.take(k) + (out.skip(k) + y));
    }
}

proof fn lemma_pieces_text_cons(a: Piece, rest: Seq<Piece>)
    ensures
        pieces_text(seq![a] + rest) == a.1 + pieces_text(rest),
{
    let f = |p: Piece| p.1;
    let m = (seq![a] + rest).map_values(f);
    assert(m.drop_first() =~= rest.map_values(f));
    assert(m.first() == a.1);
}

proof fn lemma_number_text(s: Seq<char>)
    ensures
        pieces_text(number_pieces(s)) == s.take(number_len(s) as int),
    decreases s.len(),
{
    lemma_number_len_bound(s);
    lemma_run_len_bound(s, CharClass::Digit);
    lemma_run_len_bound(s, CharClass::Alphabetic);
    if s.len() > 0 && ascii_digit(s[0]) {
        let n = run_len(s, CharClass::Digit) as int;
        lemma_number_len_split(s, CharClass::Digit);
        lemma_number_text(s.skip(n));
        lemma_number_len_bound(s.skip(n));
        lemma_pieces_text_cons((Some(Color::Red), s.take(n)), number_pieces(s.skip(n)));
        assert(s.take(n) + s.skip(n).take(number_len(s.skip(n)) as int) =~= s.take(
            number_len(s) as int,
        ));
    } else if s.len() > 0 && crate::paint::alphabetic(s[0]) {
        let n = run_len(s, CharClass::Alphabetic) as int;
        lemma_number_len_split(s, CharClass::Alphabetic);
        lemma_number_text(s.skip(n));
        lemma_number_len_bound(s.skip(n));
        lemma_pieces_text_cons((None::<Color>, s.take(n)), number_pieces(s.skip(n)));
        assert(s.take(n) + s.skip(n).take(number_len(s.skip(n)) as int) =~= s.take(
            number_len(s) as int,
        ));
    } else {
        assert(pieces_text(Seq::<Piece>::empty()) =~= Seq::<char>::empty());
        assert(s.take(0) =~= Seq::<char>::empty());
    }
}

proof fn lemma_single_piece_text(p: Piece)
    ensures
        pieces_text(seq![p]) == p.1,
{
    lemma_pieces_text_cons(p, Seq::empty());
    assert(pieces_text(Seq::<Piece>::empty()) =~= Seq::<char>::empty());
    assert(p.1 + Seq::<char>::empty() =~= p.1);
}

/// The text of the first chunk is the front of `s` that it consumes.
pub proof fn lemma_first_chunk_text(s: Seq<char>)
    requires
        s.len() > 0,
    ensures
        pieces_text(first_chunk(s)) == s.take(chunk_len(s) as int),
{
    if crate::paint::alphabetic(s[0]) {
        lemma_single_piece_text((None::<Color>, s.take(word_len(s) as int)));
    } else if is_bracket(s[0]) {
        lemma_single_piece_text((Some(Color::Cyan), s.take(1)));
    } else if ascii_digit(s[0]) {
        lemma_number_text(s);
    } else if is_quote(s[0]) {
        lemma_single_piece_text((Some(Color::Yellow), s.take(crate::colorize::quoted_len(s) as int)));
    } else {
        lemma_single_piece_text((None::<Color>, s.take(1)));
    }
}

proof fn lemma_strip_chunks(s: Seq<char>, outs: Seq<Seq<char>>, y: Seq<char>)
    requires
        no_esc(s),
        outs.len() == chunks(s).len(),
        forall|i: int| 0 <= i < outs.len() ==> rendered(#[trigger] outs[i], chunks(s)[i]),
    ensures
        strip_escapes(outs.flatten() + y) == s + strip_escapes(y),
    decreases s.len(),
{
    if s.len() == 0 {
        assert(outs.flatten() + y =~= y);
        assert(s + strip_escapes(y) =~= strip_escapes(y));
    } else {
        lemma_chunk_len_bound(s);
        let n = chunk_len(s) as int;
        let rest = s.skip(n);
        assert(chunks(s) == seq![first_chunk(s)] + chunks(rest));
        let tail = outs.drop_first();
        assert forall|i: int| 0 <= i < tail.len() implies rendered(
            #[trigger] tail[i],
            chunks(rest)[i],
        ) by {
            assert(tail[i] == outs[i + 1]);
            assert(chunks(s)[i + 1] == chunks(rest)[i]);
        }
        assert(no_esc(rest));
        lemma_strip_chunks(rest, tail, y);
        lemma_first_chunk_text(s);
        assert(no_esc(s.take(n)));
        assert(rendered(outs[0], chunks(s)[0]));
        lemma_strip_rendered(outs[0], first_chunk(s), tail.flatten() + y);
        assert(outs.flatten() == outs[0] + tail.flatten());
        assert(outs.flatten() + y =~= outs[0] + (tail.flatten() + y));
        assert(s =~= s.take(n) + rest);
    }
}

/// Concatenating the colorizer's output and removing its escape sequences
/// gives back the input, for every input that holds no escape character
/// of its own.
pub proof fn lemma_round_trip(input: Seq<char>, output: Seq<Seq<char>>)
    requires
        no_esc(input),
        output.len() == chunks(input).len(),
        forall|i: int| 0 <= i < output.len() ==> rendered(#[trigger] output[i], chunks(input)[i]),
    ensures
        strip_escapes(output.flatten()) == input,
{
    lemma_strip_chunks(input, output, Seq::empty());
    assert(output.flatten() + Seq::<char>::empty() =~= output.flatten());
    assert(input + Seq::<char>::empty() =~= input);
}

proof fn lemma_single_piece_rendered(out: Seq<char>, p: Piece)
    requires
        rendered(out, seq![p]),
    ensures
        piece_rendered(out, p),
{
    let pieces = seq![p];
    let k = choose|k: int|
        #![trigger out.take(k)]
        0 <= k <= out.len() && rendered(out.take(k), pieces.drop_last()) && piece_rendered(
            out.skip(k),
            pieces.last(),
        );
    assert(pieces.drop_last().len() == 0);
    assert(out.take(k).len() == 0);
    assert(out.skip(0) =~= out);
}

/// Text without quotes, brackets and digits comes out of the colorizer
/// unchanged.
pub proof fn lemma_plain_text_unchanged(input: Seq<char>, output: Seq<Seq<char>>)
    requires
        forall|i: int|
            0 <= i < input.len() ==> !is_quote(#[trigger] input[i]) && !is_bracket(input[i])
                && !ascii_digit(input[i]),
        output.len() == chunks(input).len(),
        forall|i: int| 0 <= i < output.len() ==> rendered(#[trigger] output[i], chunks(input)[i]),
    ensures
        output.flatten() == input,
    decreases input.len(),
{
    if input.len() == 0 {
        assert(output.flatten() =~= input);
    } else {
        lemma_chunk_len_bound(input);
        let n = chunk_len(input) as int;
        let rest = input.skip(n);
        assert(chunks(input) == seq![first_chunk(input)] + chunks(rest));
        let tail = output.drop_first();
        assert forall|i: int| 0 <= i < tail.len() implies rendered(
            #[trigger] tail[i],
            chunks(rest)[i],
        ) by {
            assert(tail[i] == output[i + 1]);
            assert(chunks(input)[i + 1] == chunks(rest)[i]);
        }
        assert forall|i: int| 0 <= i < rest.len() implies !is_quote(#[trigger] rest[i])
            && !is_bracket(rest[i]) && !ascii_digit(rest[i]) by {
            assert(rest[i] == input[i + n]);
        }
        lemma_plain_text_unchanged(rest, tail);
        assert(!is_quote(input[0]) && !is_bracket(input[0]) && !ascii_digit(input[0]));
        assert(first_chunk(input) == seq![(None::<Color>, input.take(n))]);
        assert(rendered(output[0], chunks(input)[0]));
        lemma_single_piece_rendered(output[0], (None::<Color>, input.take(n)));
        assert(output.flatten() == output[0] + tail.flatten());
        assert(input =~= input.take(n) + rest);
    }
}

/// The body of a quoted string ends in a backslash that has no character
/// to escape.
pub open spec fn open_escape(s: Seq<char>) -> bool
    decreases s.len(),
{
    if s.len() == 0 {
        false
    } else if s[0] == '\\' {
        s.len() == 1 || open_escape(s.skip(2))
    } else {
        open_escape(s.skip(1))
    }
}

proof fn lemma_quoted_body_of(s: Seq<char>, tail: Seq<char>, q: char)
    requires
        forall|i: int| 0 <= i < s.len() ==> s[i] != q && s[i] != '\n',
        !open_escape(s),
    ensures
        crate::colorize::quoted_body_len(s + tail, q) == s.len()
            + crate::colorize::quoted_body_len(tail, q),
    decreases s.len(),
{
    if s.len() == 0 {
        assert(s + tail =~= tail);
    } else if s[0] == '\\' {
        assert(s.len() >= 2);
        lemma_quoted_body_of(s.skip(2), tail, q);
        assert((s + tail).skip(2) =~= s.skip(2) + tail);
    } else {
        lemma_quoted_body_of(s.skip(1), tail, q);
        assert((s + tail).skip(1) =~= s.skip(1) + tail);
    }
}

/// A double-quoted string between two letters is one bold yellow chunk,
/// quotes included, between two plain chunks; a string that the input
/// ends before it is closed is still colored, up to the end.
pub proof fn lemma_quoted_string_colored(s: Seq<char>)
    requires
        forall|i: int| 0 <= i < s.len() ==> s[i] != '"' && s[i] != '\n',
        !open_escape(s),
    ensures
        chunks(seq!['f', '"'] + s + seq!['"', 'o']) == seq![
            seq![(None::<Color>, seq!['f'])],
            seq![(Some(Color::Yellow), seq!['"'] + s + seq!['"'])],
            seq![(None::<Color>, seq!['o'])],
        ],
        chunks(seq!['a', '"'] + s) == seq![
            seq![(None::<Color>, seq!['a'])],
            seq![(Some(Color::Yellow), seq!['"'] + s)],
        ],
{
    let x = seq!['f', '"'] + s + seq!['"', 'o'];
    let x1 = x.skip(1);
    let n = s.len() as int;
    let x2 = x1.skip(n + 2);
    assert(x1 =~= seq!['"'] + (s + seq!['"', 'o']));
    assert(x1.drop_first() =~= s + seq!['"', 'o']);
    lemma_quoted_body_of(s, seq!['"', 'o'], '"');
    assert(crate::colorize::quoted_body_len(seq!['"', 'o'], '"') == 0);
    assert(x1[n + 1] == '"');
    assert(word_len(x) == 1);
    assert(chunk_len(x) == 1);
    assert(x.take(1) =~= seq!['f']);
    assert(chunk_len(x1) == s.len() + 2);
    assert(x1.take(n + 2) =~= seq!['"'] + s + seq!['"']);
    assert(x2 =~= seq!['o']);
    assert(word_len(x2) == 1);
    assert(x2.take(1) =~= x2);
    assert(x2.skip(1) =~= Seq::<char>::empty());
    assert(chunk_len(x2) == 1);
    assert(chunks(x2.skip(1)) == Seq::<Seq<Piece>>::empty());
    assert(first_chunk(x2) == seq![(None::<Color>, seq!['o'])]);
    assert(chunks(x2) =~= seq![seq![(None::<Color>, seq!['o'])]]);
    assert(chunks(x1) =~= seq![seq![(Some(Color::Yellow), seq!['"'] + s + seq!['"'])]] + chunks(
        x2,
    ));
    assert(chunks(x) =~= seq![seq![(None::<Color>, seq!['f'])]] + chunks(x1));

    let z = seq!['a', '"'] + s;
    let z1 = z.skip(1);
    assert(z1 =~= seq!['"'] + (s + Seq::<char>::empty()));
    assert(z1.drop_first() =~= s + Seq::<char>::empty());
    lemma_quoted_body_of(s, Seq::<char>::empty(), '"');
    assert(crate::colorize::quoted_body_len(Seq::<char>::empty(), '"') == 0);
    assert(word_len(z) == 1);
    assert(z.take(1) =~= seq!['a']);
    assert(chunk_len(z1) == s.len() + 1);
    assert(z1.take(n + 1) =~= seq!['"'] + s);
    assert(z1.skip(n + 1) =~= Seq::<char>::empty());
    assert(chunks(z1.skip(n + 1)) == Seq::<Seq<Piece>>::empty());
    assert(chunks(z1) =~= seq![seq![(Some(Color::Yellow), seq!['"'] + s)]]);
    assert(chunks(z) =~= seq![seq![(None::<Color>, seq!['a'])]] + chunks(z1));
}

/// What the colorizer writes for a double-quoted string between two
/// letters: the first letter, the quoted string painted bold yellow, quotes
/// included, and the second letter.
pub proof fn lemma_quoted_string_output(s: Seq<char>, output: Seq<Seq<char>>)
    requires
        forall|i: int| 0 <= i < s.len() ==> s[i] != '"' && s[i] != '\n',
        !open_escape(s),
        output.len() == chunks(seq!['f', '"'] + s + seq!['"', 'o']).len(),
        forall|i: int|
            0 <= i < output.len() ==> rendered(
                #[trigger] output[i],
                chunks(seq!['f', '"'] + s + seq!['"', 'o'])[i],
            ),
    ensures
        output.len() == 3,
        output[0] == seq!['f'],
        painted(output[1], seq!['"'] + s + seq!['"'], Color::Yellow),
        output[2] == seq!['o'],
{
    let cs = chunks(seq!['f', '"'] + s + seq!['"', 'o']);
    lemma_quoted_string_colored(s);
    assert(rendered(output[0], cs[0]));
    assert(rendered(output[1], cs[1]));
    assert(rendered(output[2], cs[2]));
    lemma_single_piece_rendered(output[0], cs[0][0]);
    lemma_single_piece_rendered(output[1], cs[1][0]);
    lemma_single_piece_rendered(output[2], cs[2][0]);
}

} // verus!
