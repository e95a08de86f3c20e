use si::peekable::Peekable;
use si::stream::Stream;

#[test]
fn peekable_allows_to_stream_chars() {
    let mut stream = Peekable::new(Stream::new("x".chars().collect()));
    assert_eq!(stream.next(), Some('x'));
    assert_eq!(stream.next(), None);
}

#[test]
fn peekable_allows_to_peek_ahead() {
    let stream = Peekable::new(Stream::new("x".chars().collect()));
    assert_eq!(stream.peek(), Some('x'));
}

#[test]
fn peekable_peeking_does_not_consume_chars() {
    let mut stream = Peekable::new(Stream::new("x".chars().collect()));
    stream.peek();
    assert_eq!(stream.next(), Some('x'));
}

#[test]
fn peekable_peeking_works_twice() {
    let stream = Peekable::new(Stream::new("ab".chars().collect()));
    stream.peek();
    assert_eq!(stream.peek(), Some('a'));
}

#[test]
fn peekable_peeking_works_after_next() {
    let mut stream = Peekable::new(Stream::new("ab".chars().collect()));
    stream.next();
    assert_eq!(stream.peek(), Some('b'));
}
