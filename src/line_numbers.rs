//! Prefixing each line of text with its right-aligned number.
use crate::colorize::{chunks, colorize, rendered};
use crate::stream::{concat_views, Stream};
use vstd::prelude::*;

verus! {

/// The character of the decimal digit `d`.
pub open spec fn digit_char(d: nat) -> char {
    if d == 0 {
        '0'
    } else if d == 1 {
        '1'
    } else if d == 2 {
        '2'
    } else if d == 3 {
        '3'
    } else if d == 4 {
        '4'
    } else if d == 5 {
        '5'
    } else if d == 6 {
        '6'
    } else if d == 7 {
        '7'
    } else if d == 8 {
        '8'
    } else {
        '9'
    }
}

/// The decimal notation of `n`, without leading zeros.
pub open spec fn decimal(n: nat) -> Seq<char>
    decreases n,
{
    if n < 10 {
        seq![digit_char(n)]
    } else {
        decimal(n / 10).push(digit_char(n % 10))
    }
}

/// `n` spaces.
pub open spec fn spaces(n: nat) -> Seq<char> {
    Seq::new(n, |i: int| ' ')
}

/// `n` in decimal, with spaces in front up to `width` characters.
pub open spec fn padded(width: nat, n: nat) -> Seq<char> {
    let d = decimal(n);
    if d.len() < width {
        spaces((width - d.len()) as nat) + d
    } else {
        d
    }
}

/// The number of newline characters in `s`.
pub open spec fn newlines(s: Seq<char>) -> nat
    decreases s.len(),
{
    if s.len() == 0 {
        0
    } else {
        newlines(s.drop_last()) + if s.last() == '\n' {
            1nat
        } else {
            0nat
        }
    }
}

/// Character `i` of `s` begins a line.
pub open spec fn starts_line(s: Seq<char>, i: int) -> bool {
    i == 0 || s[i - 1] == '\n'
}

/// The number of the line that character `i` of `s` belongs to.
pub open spec fn line_number(s: Seq<char>, i: int) -> nat {
    1 + newlines(s.take(i))
}

/// What is written for character `i` of `s`: at the start of a line the
/// padded line number and a bar come first (a bare bar for an empty line).
pub open spec fn numbered(s: Seq<char>, width: nat, i: int) -> Seq<char> {
    if starts_line(s, i) {
        if s[i] == '\n' {
            padded(width, line_number(s, i)) + seq![' ', '|', '\n']
        } else {
            padded(width, line_number(s, i)) + seq![' ', '|', ' ', s[i]]
        }
    } else {
        seq![s[i]]
    }
}

pub proof fn lemma_newlines_bound(s: Seq<char>)
    ensures
        newlines(s) <= s.len(),
    decreases s.len(),
{
    if s.len() > 0 {
        lemma_newlines_bound(s.drop_last());
    }
}

fn digit(d: usize) -> (r: char)
    requires
        d < 10,
    ensures
        r == digit_char(d as nat),
{
    if d == 0 {
        '0'
    } else if d == 1 {
        '1'
    } else if d == 2 {
        '2'
    } else if d == 3 {
        '3'
    } else if d == 4 {
        '4'
    } else if d == 5 {
        '5'
    } else if d == 6 {
        '6'
    } else if d == 7 {
        '7'
    } else if d == 8 {
        '8'
    } else {
        '9'
    }
}

/// `n` in decimal.
#[verifier::rlimit(30)]
pub fn to_decimal(n: usize) -> (r: String)
    ensures
        r@ == decimal(n as nat),
{
    let mut m = n;
    let mut low: Vec<char> = Vec::new();
    while m >= 10
        invariant
            decimal(n as nat) == decimal(m as nat) + low@.reverse(),
        decreases m,
    {
        let d = digit(m % 10);
        let ghost before = low@;
        low.push(d);
        assert(low@.reverse() =~= seq![d] + before.reverse());
        assert(decimal(m as nat) == decimal((m / 10) as nat).push(d));
        m = m / 10;
        assert(decimal(n as nat) =~= decimal(m as nat) + low@.reverse());
    }
    let mut text = String::new();
    text.push(digit(m));
    let mut i = low.len();
    while i > 0
        invariant
            i <= low@.len(),
            decimal(n as nat) == text@ + low@.take(i as int).reverse(),
        decreases i,
    {
        i = i - 1;
        let ghost before = text@;
        text.push(low[i]);
        assert(low@.take(i + 1).reverse() =~= seq![low@[i as int]] + low@.take(i as int).reverse());
        assert(decimal(n as nat) =~= text@ + low@.take(i as int).reverse());
    }
    assert(low@.take(0).reverse() =~= Seq::<char>::empty());
    assert(decimal(n as nat) =~= text@);
    text
}

/// `n` in decimal, with spaces in front up to `max_number_length`
/// characters.
pub fn pad(max_number_length: usize, n: usize) -> (r: String)
    ensures
        r@ == padded(max_number_length as nat, n as nat),
{
    let number_string = to_decimal(n);
    let len = number_string.as_str().unicode_len();
    let padding = if len < max_number_length {
        max_number_length - len
    } else {
        0
    };
    let mut text = String::new();
    let mut i: usize = 0;
    while i < padding
        invariant
            i <= padding,
            text@ == spaces(i as nat),
        decreases padding - i,
    {
        text.push(' ');
        i = i + 1;
        assert(text@ =~= spaces(i as nat));
    }
    text.push_str(number_string.as_str());
    assert(spaces(0) =~= Seq::<char>::empty());
    assert(text@ =~= padded(max_number_length as nat, n as nat));
    text
}

/// Numbers the lines of a stream of characters, one output string per
/// character pulled.
pub struct LineNumberer {
    input: Stream<char>,
    line_start: bool,
    line_number: usize,
    width: usize,
    consumed: Ghost<Seq<char>>,
}

impl LineNumberer {
    /// The whole text: what was pulled and what remains.
    pub closed spec fn text(&self) -> Seq<char> {
        self.consumed@ + self.input@
    }

    /// How many characters were pulled.
    pub closed spec fn position(&self) -> nat {
        self.consumed@.len()
    }

    /// The width that line numbers are padded to.
    pub closed spec fn width(&self) -> nat {
        self.width as nat
    }

    /// The state agrees with the characters pulled so far.
    pub closed spec fn well_formed(&self) -> bool {
        &&& self.text().len() <= usize::MAX
        &&& self.line_start == starts_line(self.text(), self.position() as int)
        &&& self.line_number == newlines(self.consumed@) + if self.line_start {
            0nat
        } else {
            1nat
        }
    }

    pub fn new(input: Stream<char>, width: usize) -> (r: LineNumberer)
        ensures
            r.well_formed(),
            r.text() == input@,
            r.position() == 0,
            r.width() == width,
    {
        proof {
            input.lemma_len_bound();
        }
        let r = LineNumberer {
            input,
            line_start: true,
            line_number: 0,
            width,
            consumed: Ghost(Seq::empty()),
        };
        assert(r.text() =~= input@);
        r
    }

    /// What is written for the next character (see `numbered`), or `None`
    /// once the characters are exhausted.
    pub fn next(&mut self) -> (r: Option<String>)
        requires
            old(self).well_formed(),
        ensures
            final(self).well_formed(),
            final(self).text() == old(self).text(),
            final(self).width() == old(self).width(),
            old(self).position() == old(self).text().len() ==> r is None && final(self).position()
                == old(self).position(),
            old(self).position() < old(self).text().len() ==> r is Some && r->0@ == numbered(
                old(self).text(),
                old(self).width(),
                old(self).position() as int,
            ) && final(self).position() == old(self).position() + 1,
    {
        let ghost all = self.text();
        let ghost k = self.position() as int;
        let c = match self.input.next() {
            Some(c) => c,
            None => {
                assert(self.consumed@ + self.input@ =~= all);
                return None;
            },
        };
        assert(c == all[k]);
        assert(all.take(k + 1).drop_last() =~= all.take(k));
        assert(all.take(k) =~= self.consumed@);
        proof {
            lemma_newlines_bound(self.consumed@);
        }
        let chunk = if self.line_start {
            self.line_number = self.line_number + 1;
            let mut text = pad(self.width, self.line_number);
            if c == '\n' {
                text.push_str(" |\n");
                proof {
                    reveal_strlit(" |\n");
                }
            } else {
                self.line_start = false;
                text.push_str(" | ");
                text.push(c);
                proof {
                    reveal_strlit(" | ");
                }
            }
            text
        } else {
            let mut text = String::new();
            text.push(c);
            if c == '\n' {
                self.line_start = true;
            }
            text
        };
        proof {
            self.consumed = Ghost(self.consumed@.push(c));
            assert(self.consumed@ + self.input@ =~= all);
            assert(self.consumed@ =~= all.take(k + 1));
        }
        assert(chunk@ =~= numbered(all, self.width as nat, k));
        Some(chunk)
    }
}

/// Prefixes each line of `input` with its number, padded to `width`
/// characters: one output string per input character (see `numbered`).
pub fn add_line_numbers(input: Stream<char>, width: usize) -> (r: Stream<String>)
    ensures
        r@.len() == input@.len(),
        forall|i: int| 0 <= i < r@.len() ==> (#[trigger] r@[i])@ == numbered(input@, width as nat, i),
{
    let ghost all = input@;
    let mut numberer = LineNumberer::new(input, width);
    let mut out: Vec<String> = Vec::new();
    loop
        invariant
            numberer.well_formed(),
            numberer.text() == all,
            numberer.width() == width,
            numberer.position() == out@.len(),
            forall|i: int|
                0 <= i < out@.len() ==> (#[trigger] out@[i])@ == numbered(all, width as nat, i),
        ensures
            out@.len() == all.len(),
            forall|i: int|
                0 <= i < out@.len() ==> (#[trigger] out@[i])@ == numbered(all, width as nat, i),
        decreases all.len() - numberer.position(),
    {
        match numberer.next() {
            Some(chunk) => out.push(chunk),
            None => break,
        }
    }
    Stream::new(out)
}

/// The width of the line numbers of `contents`: the number of digits of its
/// count of newline characters.
pub fn max_number_length(contents: &Vec<char>) -> (r: usize)
    ensures
        r == decimal(newlines(contents@)).len(),
{
    let mut count: usize = 0;
    let mut i: usize = 0;
    while i < contents.len()
        invariant
            i <= contents@.len(),
            count == newlines(contents@.take(i as int)),
        decreases contents.len() - i,
    {
        proof {
            lemma_newlines_bound(contents@.take(i as int));
        }
        assert(contents@.take(i + 1).drop_last() =~= contents@.take(i as int));
        if contents[i] == '\n' {
            count = count + 1;
        }
        i = i + 1;
    }
    assert(contents@.take(i as int) =~= contents@);
    to_decimal(count).as_str().unicode_len()
}

/// The characters of `text`, in order.
pub fn chars_of(text: &String) -> (r: Stream<char>)
    ensures
        r@ == text@,
{
    let n = text.as_str().unicode_len();
    let mut out: Vec<char> = Vec::new();
    let mut i: usize = 0;
    while i < n
        invariant
            n == text@.len(),
            i <= n,
            out@ == text@.take(i as int),
        decreases n - i,
    {
        out.push(text.as_str().get_char(i));
        i = i + 1;
        assert(out@ =~= text@.take(i as int));
    }
    assert(text@.take(n as int) =~= text@);
    Stream::new(out)
}

fn chunk_chars(chunk: String) -> (r: Stream<char>)
    ensures
        r@ == chunk@,
{
    chars_of(&chunk)
}

/// Colorizes `contents` and numbers the lines of the result, the numbers
/// padded to the width that the newlines of `contents` call for.
pub fn render_file(contents: Vec<char>) -> (r: Stream<String>)
    ensures
        exists|outs: Seq<Seq<char>>|
            {
                &&& outs.len() == chunks(contents@).len()
                &&& forall|i: int|
                    0 <= i < outs.len() ==> rendered(#[trigger] outs[i], chunks(contents@)[i])
                &&& r@.len() == outs.flatten().len()
                &&& forall|i: int|
                    0 <= i < r@.len() ==> (#[trigger] r@[i])@ == numbered(
                        outs.flatten(),
                        decimal(newlines(contents@)).len(),
                        i,
                    )
            },
{
    let ghost text = contents@;
    let width = max_number_length(&contents);
    let colored = colorize(Stream::new(contents));
    let ghost strings = colored@;
    let ghost outs = strings.map_values(|s: String| s@);
    let chars = colored.flat_map(chunk_chars);
    proof {
        let parts = choose|parts: Seq<Stream<char>>|
            {
                &&& parts.len() == strings.len()
                &&& forall|i: int|
                    0 <= i < strings.len() ==> chunk_chars.ensures((strings[i],), #[trigger] parts[i])
                &&& chars@ == concat_views(parts)
            };
        assert(parts.map_values(|p: Stream<char>| p@) =~= outs);
        assert forall|i: int| 0 <= i < outs.len() implies rendered(#[trigger] outs[i], chunks(text)[i]) by {
            assert(outs[i] == strings[i]@);
        }
    }
    add_line_numbers(chars, width)
}

proof fn lemma_decimal_len(n: nat, m: nat)
    requires
        n <= m,
    ensures
        1 <= decimal(n).len() <= decimal(m).len(),
    decreases m,
{
    if m >= 10 {
        if n >= 10 {
            vstd::arithmetic::div_mod::lemma_div_is_ordered(n as int, m as int, 10);
            lemma_decimal_len(n / 10, m / 10);
        } else {
            lemma_decimal_len(0, m / 10);
        }
    }
}

proof fn lemma_newlines_concat(a: Seq<char>, b: Seq<char>)
    ensures
        newlines(a + b) == newlines(a) + newlines(b),
    decreases b.len(),
{
    if b.len() == 0 {
        assert(a + b =~= a);
    } else {
        lemma_newlines_concat(a, b.drop_last());
        assert((a + b).drop_last() =~= a + b.drop_last());
    }
}

/// Every line that a newline ends has its number padded to the same width,
/// the number of digits of the count of newlines in the whole text: lines
/// with fewer digits, before a power of ten is crossed, are padded as far.
pub proof fn lemma_uniform_width(s: Seq<char>, i: int)
    requires
        0 <= i < s.len(),
        starts_line(s, i),
        newlines(s.skip(i)) > 0,
    ensures
        padded(decimal(newlines(s)).len(), line_number(s, i)).len() == decimal(newlines(s)).len(),
{
    lemma_newlines_concat(s.take(i), s.skip(i));
    assert(s.take(i) + s.skip(i) =~= s);
    lemma_decimal_len(line_number(s, i), newlines(s));
    let d = decimal(line_number(s, i));
    let w = decimal(newlines(s)).len();
    if d.len() < w {
        assert((spaces((w - d.len()) as nat) + d).len() == w);
    }
}

/// What is written for characters `a` up to `b` of `s`, one after the other.
pub open spec fn numbered_span(s: Seq<char>, width: nat, a: int, b: int) -> Seq<char>
    decreases b - a,
{
    if b <= a {
        Seq::empty()
    } else {
        numbered_span(s, width, a, b - 1) + numbered(s, width, b - 1)
    }
}

proof fn lemma_line_body(s: Seq<char>, width: nat, a: int, m: int)
    requires
        0 <= a < m <= s.len(),
        starts_line(s, a),
        forall|i: int| a <= i < m ==> s[i] != '\n',
    ensures
        numbered_span(s, width, a, m) == padded(width, line_number(s, a)) + seq![' ', '|', ' ']
            + s.subrange(a, m),
    decreases m - a,
{
    if m == a + 1 {
        assert(numbered_span(s, width, a, a) == Seq::<char>::empty());
        assert(s.subrange(a, m) =~= seq![s[a]]);
        assert(numbered_span(s, width, a, m) =~= padded(width, line_number(s, a)) + seq![
            ' ',
            '|',
            ' ',
        ] + s.subrange(a, m));
    } else {
        lemma_line_body(s, width, a, m - 1);
        assert(!starts_line(s, m - 1));
        assert(s.subrange(a, m) =~= s.subrange(a, m - 1).push(s[m - 1]));
        assert(numbered_span(s, width, a, m) =~= padded(width, line_number(s, a)) + seq![
            ' ',
            '|',
            ' ',
        ] + s.subrange(a, m));
    }
}

/// A line that starts at character `a` and is ended by the newline at `b`
/// is written as its padded number, a bar, and its text after a space, or
/// the bare bar when it is empty, then the newline.
pub proof fn lemma_line_written(s: Seq<char>, width: nat, a: int, b: int)
    requires
        0 <= a <= b < s.len(),
        starts_line(s, a),
        s[b] == '\n',
        forall|i: int| a <= i < b ==> s[i] != '\n',
    ensures
        numbered_span(s, width, a, b + 1) == padded(width, line_number(s, a)) + if a == b {
            seq![' ', '|', '\n']
        } else {
            seq![' ', '|', ' '] + s.subrange(a, b) + seq!['\n']
        },
{
    if a == b {
        assert(numbered_span(s, width, a, a) == Seq::<char>::empty());
        assert(numbered_span(s, width, a, b + 1) =~= padded(width, line_number(s, a)) + seq![
            ' ',
            '|',
            '\n',
        ]);
    } else {
        lemma_line_body(s, width, a, b);
        assert(!starts_line(s, b));
        assert(numbered_span(s, width, a, b + 1) =~= padded(width, line_number(s, a)) + seq![
            ' ',
            '|',
            ' ',
        ] + s.subrange(a, b) + seq!['\n']);
    }
}

/// A last line that no newline ends is written as its padded number, a bar,
/// and its text after a space.
pub proof fn lemma_last_line_written(s: Seq<char>, width: nat, a: int)
    requires
        0 <= a < s.len(),
        starts_line(s, a),
        forall|i: int| a <= i < s.len() ==> s[i] != '\n',
    ensures
        numbered_span(s, width, a, s.len() as int) == padded(width, line_number(s, a)) + seq![
            ' ',
            '|',
            ' ',
        ] + s.subrange(a, s.len() as int),
{
    lemma_line_body(s, width, a, s.len() as int);
}

/// What is written for a text is what is written for its parts, one after
/// the other: the lines can be taken one at a time.
pub proof fn lemma_numbered_span_split(s: Seq<char>, width: nat, a: int, m: int, b: int)
    requires
        a <= m <= b,
    ensures
        numbered_span(s, width, a, b) == numbered_span(s, width, a, m) + numbered_span(
            s,
            width,
            m,
            b,
        ),
    decreases b - m,
{
    if b == m {
        assert(numbered_span(s, width, m, b) == Seq::<char>::empty());
        assert(numbered_span(s, width, a, m) + Seq::<char>::empty() =~= numbered_span(s, width, a, m));
    } else {
        lemma_numbered_span_split(s, width, a, m, b - 1);
        assert(numbered_span(s, width, a, b) =~= numbered_span(s, width, a, m) + numbered_span(
            s,
            width,
            m,
            b,
        ));
    }
}

/// Concatenated, the strings that `add_line_numbers` returns are what is
/// written for the whole text.
pub proof fn lemma_output_concat(outs: Seq<Seq<char>>, s: Seq<char>, width: nat)
    requires
        outs.len() == s.len(),
        forall|i: int| 0 <= i < outs.len() ==> #[trigger] outs[i] == numbered(s, width, i),
    ensures
        outs.flatten() == numbered_span(s, width, 0, s.len() as int),
    decreases outs.len(),
{
    if outs.len() == 0 {
        assert(outs.flatten() =~= Seq::<char>::empty());
    } else {
        let n = outs.len() - 1;
        let front = outs.drop_last();
        assert forall|j: int| 0 <= j < front.len() implies #[trigger] front[j] == numbered(
            s.take(n),
            width,
            j,
        ) by {
            assert(s.take(n).take(j) =~= s.take(j));
            assert(outs[j] == numbered(s, width, j));
        }
        lemma_output_concat(front, s.take(n), width);
        lemma_span_prefix(s, width, n, n);
        front.lemma_flatten_push(outs[n]);
        assert(outs =~= front.push(outs[n]));
    }
}

proof fn lemma_span_prefix(s: Seq<char>, width: nat, n: int, m: int)
    requires
        0 <= m <= n <= s.len(),
    ensures
        numbered_span(s.take(n), width, 0, m) == numbered_span(s, width, 0, m),
    decreases m,
{
    if m > 0 {
        lemma_span_prefix(s, width, n, m - 1);
        assert(s.take(n).take(m - 1) =~= s.take(m - 1));
        assert(numbered(s.take(n), width, m - 1) == numbered(s, width, m - 1));
    }
}

} // verus!
