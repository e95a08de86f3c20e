//! The heuristic tokenizer that splits text into colored chunks.
use crate::paint::{
    alphabetic, alphanumeric, ascii_digit, is_alphabetic, is_alphanumeric, paint, painted, Color,
};
use crate::stream::Stream;
use vstd::prelude::*;

verus! {

/// The classes of characters that runs are made of.
#[derive(Clone, Copy, Debug, PartialEq, Eq, Structural)]
pub enum CharClass {
    Alphabetic,
    Alphanumeric,
    Digit,
    DigitOrAlphabetic,
}

pub open spec fn in_class(k: CharClass, c: char) -> bool {
    match k {
        CharClass::Alphabetic => alphabetic(c),
        CharClass::Alphanumeric => alphanumeric(c),
        CharClass::Digit => ascii_digit(c),
        CharClass::DigitOrAlphabetic => ascii_digit(c) || alphabetic(c),
    }
}

/// The length of the longest prefix of `s` made of characters of class `k`.
pub open spec fn run_len(s: Seq<char>, k: CharClass) -> nat
    decreases s.len(),
{
    if s.len() > 0 && in_class(k, s[0]) {
        1 + run_len(s.drop_first(), k)
    } else {
        0
    }
}

pub open spec fn is_bracket(c: char) -> bool {
    c == '(' || c == ')' || c == '{' || c == '}' || c == '[' || c == ']'
}

pub open spec fn is_quote(c: char) -> bool {
    c == '"' || c == '\''
}

/// The length of the body of a string quoted with `q` at the front of `s`:
/// escaped pairs (a backslash and the character after it), and characters
/// other than `q` and the newline.
pub open spec fn quoted_body_len(s: Seq<char>, q: char) -> nat
    decreases s.len(),
{
    if s.len() >= 2 && s[0] == '\\' {
        2 + quoted_body_len(s.skip(2), q)
    } else if s.len() >= 1 && s[0] != q && s[0] != '\n' {
        1 + quoted_body_len(s.skip(1), q)
    } else {
        0
    }
}

/// The length of the quoted string at the front of `s`, whose first
/// character is its quote: the quote, the body and, if it follows, the
/// closing quote.
pub open spec fn quoted_len(s: Seq<char>) -> nat {
    let b = quoted_body_len(s.drop_first(), s[0]);
    if b + 1 < s.len() && s[(b + 1) as int] == s[0] {
        b + 2
    } else {
        b + 1
    }
}

/// The length of a word at the front of `s`: one character, then
/// alphanumeric ones.
pub open spec fn word_len(s: Seq<char>) -> nat {
    1 + run_len(s.drop_first(), CharClass::Alphanumeric)
}

/// A piece of a chunk: its color, if any, and its text.
pub type Piece = (Option<Color>, Seq<char>);

#[via_fn]
proof fn number_decreases(s: Seq<char>) {
    lemma_run_len_bound(s, CharClass::Digit);
    lemma_run_len_bound(s, CharClass::Alphabetic);
}

/// The pieces of a number-word at the front of `s`: alternating runs of
/// digits, colored red, and of alphabetic characters, left plain.
pub open spec fn number_pieces(s: Seq<char>) -> Seq<Piece>
    decreases s.len(),
    via number_decreases
{
    if s.len() > 0 && ascii_digit(s[0]) {
        let n = run_len(s, CharClass::Digit) as int;
        seq![(Some(Color::Red), s.take(n))] + number_pieces(s.skip(n))
    } else if s.len() > 0 && alphabetic(s[0]) {
        let n = run_len(s, CharClass::Alphabetic) as int;
        seq![(None::<Color>, s.take(n))] + number_pieces(s.skip(n))
    } else {
        Seq::empty()
    }
}

/// The length of the number-word at the front of `s`: the digits and the
/// alphabetic characters that its runs take.
pub open spec fn number_len(s: Seq<char>) -> nat {
    run_len(s, CharClass::DigitOrAlphabetic)
}

/// The length of the chunk at the front of the non-empty `s`.
pub open spec fn chunk_len(s: Seq<char>) -> nat {
    if alphabetic(s[0]) {
        word_len(s)
    } else if is_bracket(s[0]) {
        1
    } else if ascii_digit(s[0]) {
        number_len(s)
    } else if is_quote(s[0]) {
        quoted_len(s)
    } else {
        1
    }
}

/// The chunk at the front of the non-empty `s`, by the first rule that
/// matches: a word, a bracket, a number-word, a quoted string, or a single
/// character.
pub open spec fn first_chunk(s: Seq<char>) -> Seq<Piece> {
    if alphabetic(s[0]) {
        seq![(None::<Color>, s.take(word_len(s) as int))]
    } else if is_bracket(s[0]) {
        seq![(Some(Color::Cyan), s.take(1))]
    } else if ascii_digit(s[0]) {
        number_pieces(s)
    } else if is_quote(s[0]) {
        seq![(Some(Color::Yellow), s.take(quoted_len(s) as int))]
    } else {
        seq![(None::<Color>, s.take(1))]
    }
}

#[via_fn]
proof fn chunks_decreases(s: Seq<char>) {
    if s.len() > 0 {
        lemma_chunk_len_bound(s);
    }
}

/// The chunks that `s` is split into, front first.
pub open spec fn chunks(s: Seq<char>) -> Seq<Seq<Piece>>
    decreases s.len(),
    via chunks_decreases
{
    if s.len() == 0 {
        Seq::empty()
    } else {
        seq![first_chunk(s)] + chunks(s.skip(chunk_len(s) as int))
    }
}

pub proof fn lemma_run_len_bound(s: Seq<char>, k: CharClass)
    ensures
        run_len(s, k) <= s.len(),
        s.len() > 0 && in_class(k, s[0]) ==> run_len(s, k) >= 1,
    decreases s.len(),
{
    if s.len() > 0 && in_class(k, s[0]) {
        lemma_run_len_bound(s.drop_first(), k);
    }
}

pub proof fn lemma_quoted_body_bound(s: Seq<char>, q: char)
    ensures
        quoted_body_len(s, q) <= s.len(),
    decreases s.len(),
{
    if s.len() >= 2 && s[0] == '\\' {
        lemma_quoted_body_bound(s.skip(2), q);
    } else if s.len() >= 1 && s[0] != q && s[0] != '\n' {
        lemma_quoted_body_bound(s.skip(1), q);
    }
}

pub proof fn lemma_number_len_bound(s: Seq<char>)
    ensures
        number_len(s) <= s.len(),
        s.len() > 0 && ascii_digit(s[0]) ==> number_len(s) >= 1,
{
    lemma_run_len_bound(s, CharClass::DigitOrAlphabetic);
}

/// A number-word goes on past a run of digits or of alphabetic characters
/// at its front.
pub proof fn lemma_number_len_split(s: Seq<char>, k: CharClass)
    requires
        k == CharClass::Digit || k == CharClass::Alphabetic,
    ensures
        number_len(s) == run_len(s, k) + number_len(s.skip(run_len(s, k) as int)),
    decreases s.len(),
{
    lemma_run_len_bound(s, k);
    if run_len(s, k) > 0 {
        lemma_number_len_split(s.drop_first(), k);
        assert(s.drop_first().skip(run_len(s.drop_first(), k) as int) =~= s.skip(
            run_len(s, k) as int,
        ));
    } else {
        assert(s.skip(0) =~= s);
    }
}

pub proof fn lemma_chunk_len_bound(s: Seq<char>)
    requires
        s.len() > 0,
    ensures
        1 <= chunk_len(s) <= s.len(),
{
    lemma_run_len_bound(s.drop_first(), CharClass::Alphanumeric);
    lemma_number_len_bound(s);
    lemma_quoted_body_bound(s.drop_first(), s[0]);
}

/// `out` is a rendering of the piece `p`: its text as it is when it has no
/// color, else its text painted in that color.
pub open spec fn piece_rendered(out: Seq<char>, p: Piece) -> bool {
    match p.0 {
        None => out == p.1,
        Some(c) => painted(out, p.1, c),
    }
}

/// `out` is a rendering of `pieces`: the renderings of the pieces, one
/// after the other.
pub open spec fn rendered(out: Seq<char>, pieces: Seq<Piece>) -> bool
    decreases pieces.len(),
{
    if pieces.len() == 0 {
        out.len() == 0
    } else {
        exists|k: int|
            #![trigger out.take(k)]
            0 <= k <= out.len() && rendered(out.take(k), pieces.drop_last()) && piece_rendered(
                out.skip(k),
                pieces.last(),
            )
    }
}

/// A piece of a chunk, with its color if it has one.
pub struct Span {
    pub color: Option<Color>,
    pub text: String,
}

impl View for Span {
    type V = Piece;

    open spec fn view(&self) -> Piece {
        (self.color, self.text@)
    }
}

pub open spec fn spans_view(v: Seq<Span>) -> Seq<Piece> {
    v.map_values(|s: Span| s@)
}

/// Renders the pieces of a chunk, each painted in its color.
pub fn render_chunk(spans: &Vec<Span>) -> (r: String)
    ensures
        rendered(r@, spans_view(spans@)),
{
    let mut out = String::new();
    let mut i: usize = 0;
    while i < spans.len()
        invariant
            i <= spans.len(),
            rendered(out@, spans_view(spans@.take(i as int))),
        decreases spans.len() - i,
    {
        let span = &spans[i];
        let ghost before = out@;
        let ghost mut piece: Seq<char> = Seq::empty();
        match span.color {
            None => {
                out.push_str(span.text.as_str());
                proof {
                    piece = span.text@;
                }
            },
            Some(c) => {
                let painted_text = paint(span.text.as_str(), c);
                out.push_str(painted_text.as_str());
                proof {
                    piece = painted_text@;
                }
            },
        }
        proof {
            assert(out@.skip(before.len() as int) =~= piece);
            let pieces = spans_view(spans@.take(i + 1));
            assert(pieces.drop_last() =~= spans_view(spans@.take(i as int)));
            assert(pieces.last() == spans@[i as int]@);
            let k = before.len() as int;
            assert(out@.take(k) =~= before);
            assert(rendered(out@.take(k), pieces.drop_last()));
            assert(piece_rendered(out@.skip(k), pieces.last()));
        }
        i = i + 1;
    }
    assert(spans@.take(i as int) =~= spans@);
    out
}

/// Splits text into colored chunks, one chunk per pull.
pub struct Parser {
    inner: Stream<char>,
}

impl View for Parser {
    type V = Seq<char>;

    /// The characters not yet consumed.
    closed spec fn view(&self) -> Seq<char> {
        self.inner@
    }
}

fn class_holds(k: CharClass, c: char) -> (r: bool)
    ensures
        r == in_class(k, c),
{
    match k {
        CharClass::Alphabetic => is_alphabetic(c),
        CharClass::Alphanumeric => is_alphanumeric(c),
        CharClass::Digit => '0' <= c && c <= '9',
        CharClass::DigitOrAlphabetic => ('0' <= c && c <= '9') || is_alphabetic(c),
    }
}

impl Parser {
    pub fn new(contents: Stream<char>) -> (r: Parser)
        ensures
            r@ == contents@,
    {
        Parser { inner: contents }
    }

    /// Whether characters remain.
    pub fn has_next(&self) -> (r: bool)
        ensures
            r == (self@.len() > 0),
    {
        self.inner.has_next()
    }

    fn peek(&mut self) -> (r: Option<char>)
        ensures
            final(self)@ == old(self)@,
            old(self)@.len() == 0 ==> r is None,
            old(self)@.len() > 0 ==> r == Some(old(self)@[0]),
    {
        self.inner.peek()
    }

    fn advance(&mut self) -> (r: char)
        requires
            old(self)@.len() > 0,
        ensures
            r == old(self)@[0],
            final(self)@ == old(self)@.drop_first(),
    {
        self.inner.next().unwrap()
    }

    fn front_in_class(&mut self, k: CharClass) -> (r: bool)
        ensures
            final(self)@ == old(self)@,
            r == (old(self)@.len() > 0 && in_class(k, old(self)@[0])),
    {
        match self.peek() {
            Some(c) => class_holds(k, c),
            None => false,
        }
    }

    /// Consumes the longest run of characters of class `k`.
    fn run(&mut self, k: CharClass) -> (r: String)
        ensures
            r@ == old(self)@.take(run_len(old(self)@, k) as int),
            final(self)@ == old(self)@.skip(run_len(old(self)@, k) as int),
    {
        let mut text = String::new();
        while self.front_in_class(k)
            invariant
                old(self)@ == text@ + self@,
                run_len(old(self)@, k) == text@.len() + run_len(self@, k),
            decreases self@.len(),
        {
            let c = self.advance();
            text.push(c);
            assert(old(self)@ =~= text@ + self@);
        }
        assert(old(self)@.take(text@.len() as int) =~= text@);
        assert(old(self)@.skip(text@.len() as int) =~= self@);
        text
    }

    /// A word: an alphabetic character, then alphanumeric ones.
    fn word(&mut self) -> (r: String)
        requires
            old(self)@.len() > 0,
            alphabetic(old(self)@[0]),
        ensures
            r@ == old(self)@.take(word_len(old(self)@) as int),
            final(self)@ == old(self)@.skip(word_len(old(self)@) as int),
    {
        proof {
            lemma_run_len_bound(old(self)@.drop_first(), CharClass::Alphanumeric);
        }
        let c = self.advance();
        let rest = self.run(CharClass::Alphanumeric);
        let mut text = String::new();
        text.push(c);
        text.push_str(rest.as_str());
        assert(text@ =~= old(self)@.take(word_len(old(self)@) as int));
        assert(self@ =~= old(self)@.skip(word_len(old(self)@) as int));
        text
    }

    /// A number-word: runs of digits and of alphabetic characters.
    fn number_word(&mut self) -> (r: Vec<Span>)
        ensures
            spans_view(r@) == number_pieces(old(self)@),
            final(self)@ == old(self)@.skip(number_len(old(self)@) as int),
    {
        let mut out: Vec<Span> = Vec::new();
        let ghost mut consumed: Seq<char> = Seq::empty();
        loop
            invariant
                old(self)@ == consumed + self@,
                number_pieces(old(self)@) == spans_view(out@) + number_pieces(self@),
                number_len(old(self)@) == consumed.len() + number_len(self@),
            ensures
                !(self@.len() > 0 && (ascii_digit(self@[0]) || alphabetic(self@[0]))),
            decreases self@.len(),
        {
            let ghost s = self@;
            proof {
                lemma_run_len_bound(s, CharClass::Digit);
                lemma_run_len_bound(s, CharClass::Alphabetic);
                lemma_number_len_split(s, CharClass::Digit);
                lemma_number_len_split(s, CharClass::Alphabetic);
            }
            let span = if self.front_in_class(CharClass::Digit) {
                let text = self.run(CharClass::Digit);
                Span { color: Some(Color::Red), text }
            } else if self.front_in_class(CharClass::Alphabetic) {
                let text = self.run(CharClass::Alphabetic);
                Span { color: None, text }
            } else {
                break;
            };
            proof {
                assert(spans_view(out@.push(span)) =~= spans_view(out@).push(span@));
                assert(seq![span@] + number_pieces(self@) == number_pieces(s));
                assert(spans_view(out@) + number_pieces(s) =~= spans_view(out@).push(span@)
                    + number_pieces(self@));
                consumed = consumed + span.text@;
                assert(old(self)@ =~= consumed + self@);
            }
            out.push(span);
        }
        assert(number_pieces(self@) == Seq::<Piece>::empty());
        assert(number_len(self@) == 0);
        assert(old(self)@.skip(consumed.len() as int) =~= self@);
        assert(spans_view(out@) + Seq::<Piece>::empty() =~= spans_view(out@));
        out
    }

    /// A quoted string, its first character being the quote.
    fn quoted(&mut self) -> (r: String)
        requires
            old(self)@.len() > 0,
            is_quote(old(self)@[0]),
        ensures
            r@ == old(self)@.take(quoted_len(old(self)@) as int),
            final(self)@ == old(self)@.skip(quoted_len(old(self)@) as int),
    {
        let q = self.advance();
        let mut text = String::new();
        text.push(q);
        loop
            invariant
                old(self)@ == text@ + self@,
                text@.len() >= 1,
                q == old(self)@[0],
                is_quote(q),
                quoted_body_len(old(self)@.drop_first(), q) == (text@.len() - 1)
                    + quoted_body_len(self@, q),
            ensures
                old(self)@ == text@ + self@,
                text@.len() >= 1,
                quoted_body_len(old(self)@.drop_first(), q) == text@.len() - 1,
            decreases self@.len(),
        {
            let ghost s = self@;
            match self.peek() {
                Some(c) => {
                    if c == q || c == '\n' {
                        assert(quoted_body_len(self@, q) == 0);
                        break;
                    }
                },
                None => {
                    assert(quoted_body_len(self@, q) == 0);
                    break;
                },
            }
            let c = self.advance();
            text.push(c);
            if c == '\\' && self.inner.has_next() {
                let d = self.advance();
                text.push(d);
                assert(s.skip(2) =~= self@);
            } else {
                assert(s.skip(1) =~= self@);
            }
            assert(old(self)@ =~= text@ + self@);
        }
        let ghost body = text@.len();
        assert(old(self)@.drop_first().len() == old(self)@.len() - 1);
        assert(self@.len() > 0 ==> self@[0] == old(self)@[body as int]);
        match self.peek() {
            Some(c) => {
                if c == q {
                    self.advance();
                    text.push(c);
                }
            },
            None => {},
        }
        assert(old(self)@.take(text@.len() as int) =~= text@);
        assert(old(self)@.skip(text@.len() as int) =~= self@);
        text
    }

    /// The next chunk, by the first rule that matches: a word, a bracket, a
    /// number-word, a quoted string, or a single character.
    pub fn next_chunk(&mut self) -> (r: Option<Vec<Span>>)
        ensures
            old(self)@.len() == 0 ==> r is None && final(self)@ == old(self)@,
            old(self)@.len() > 0 ==> r is Some && spans_view(r->0@) == first_chunk(old(self)@)
                && final(self)@ == old(self)@.skip(chunk_len(old(self)@) as int),
    {
        let c = match self.peek() {
            Some(c) => c,
            None => return None,
        };
        let spans = if is_alphabetic(c) {
            let text = self.word();
            vec![Span { color: None, text }]
        } else if c == '(' || c == ')' || c == '{' || c == '}' || c == '[' || c == ']' {
            let mut text = String::new();
            text.push(self.advance());
            assert(text@ =~= old(self)@.take(1));
            vec![Span { color: Some(Color::Cyan), text }]
        } else if '0' <= c && c <= '9' {
            self.number_word()
        } else if c == '"' || c == '\'' {
            let text = self.quoted();
            vec![Span { color: Some(Color::Yellow), text }]
        } else {
            let mut text = String::new();
            text.push(self.advance());
            assert(text@ =~= old(self)@.take(1));
            vec![Span { color: None, text }]
        };
        assert(spans_view(spans@) =~= first_chunk(old(self)@));
        Some(spans)
    }
}

/// Splits `contents` into chunks (see `chunks`) and renders each one.
pub fn colorize(contents: Stream<char>) -> (r: Stream<String>)
    ensures
        r@.len() == chunks(contents@).len(),
        forall|i: int| 0 <= i < r@.len() ==> rendered(#[trigger] r@[i]@, chunks(contents@)[i]),
{
    let ghost all = contents@;
    let mut parser = Parser::new(contents);
    let mut out: Vec<String> = Vec::new();
    let ghost mut done: Seq<Seq<Piece>> = Seq::empty();
    while parser.has_next()
        invariant
            chunks(all) == done + chunks(parser@),
            out@.len() == done.len(),
            forall|i: int| 0 <= i < out@.len() ==> rendered(#[trigger] out@[i]@, done[i]),
        decreases parser@.len(),
    {
        let ghost s = parser@;
        proof {
            lemma_chunk_len_bound(s);
        }
        let spans = parser.next_chunk().unwrap();
        let text = render_chunk(&spans);
        proof {
            assert(chunks(s) == seq![first_chunk(s)] + chunks(parser@));
            done = done.push(first_chunk(s));
            assert(chunks(all) =~= done + chunks(parser@));
        }
        out.push(text);
    }
    assert(done =~= chunks(all));
    Stream::new(out)
}

} // verus!
