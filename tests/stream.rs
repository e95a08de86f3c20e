use si::stream::Stream;

#[test]
fn allows_to_convert_from_iterator() {
    let from_next = Stream::new(vec![1, 2, 3]);
    assert_eq!(from_next.to_vec(), vec![1, 2, 3]);
}

#[test]
fn allows_to_convert_into_iterator() {
    let stream = Stream::new(vec![1, 2, 3]);
    assert_eq!(stream.to_vec(), vec![1, 2, 3]);
}

#[test]
fn allows_to_convert_from_elements() {
    let stream: Stream<i32> = Stream::new(vec![1, 2, 3]);
    assert_eq!(stream.to_vec(), vec![1, 2, 3]);
}

#[test]
fn allows_to_create_empty_streams() {
    let stream: Stream<i32> = Stream::new(vec![]);
    assert_eq!(stream.to_vec(), Vec::<i32>::new());
    let empty: Stream<i32> = Stream::empty();
    assert_eq!(empty.to_vec(), Vec::<i32>::new());
}

#[test]
fn allows_to_trailing_commas() {
    let stream: Stream<i32> = Stream::new(vec![1, 2, 3,]);
    assert_eq!(stream.to_vec(), vec![1, 2, 3]);
}

#[test]
fn allows_to_replicate_a_given_element() {
    let stream: Stream<i32> = Stream::replicate(42, 3);
    assert_eq!(stream.to_vec(), vec![42, 42, 42]);
}

#[test]
fn map_works() {
    let from_next: Stream<i32> = Stream::new(vec![1, 2, 3]);
    let mapped = from_next.map(|x: i32| x.pow(2));
    assert_eq!(vec![1, 4, 9], mapped.to_vec());
}

#[test]
fn filter_works() {
    let stream = Stream::new((1..6).collect()).filter(|x: &i32| x % 2 == 1);
    assert_eq!(stream.to_vec(), vec![1, 3, 5]);
}

#[test]
fn fold_works() {
    let sum = Stream::new((1..6).collect()).fold(0, |sum: i32, a: i32| sum + a);
    assert_eq!(sum, 15);
}

#[test]
fn flatten_works() {
    let flattened = Stream::new(vec!["foo", "bar"])
        .map(|x: &str| Stream::new(x.chars().collect()))
        .flatten();
    assert_eq!(vec!['f', 'o', 'o', 'b', 'a', 'r'], flattened.to_vec());
}

#[test]
fn flatmap_works() {
    let stream = Stream::new(vec!["foo", "bar"]).flat_map(|x: &str| Stream::new(x.chars().collect()));
    assert_eq!(vec!['f', 'o', 'o', 'b', 'a', 'r'], stream.to_vec());
}

#[test]
fn push_works() {
    let mut stream = Stream::new(vec!["bar", "baz"]).map(|x: &str| x.to_string());
    stream.push("foo".to_string());
    assert_eq!(vec!["foo", "bar", "baz"], stream.to_vec());
}

#[test]
fn pushes_stack_last_pushed_first() {
    let mut stream = Stream::new(vec![3]);
    stream.push(2);
    stream.push(1);
    assert_eq!(stream.to_vec(), vec![1, 2, 3]);
}

#[test]
fn peek_works() {
    let mut stream = Stream::new(vec!["foo", "bar"]).map(|x: &str| x.to_string());
    assert_eq!(stream.peek(), Some("foo".to_string()));
    assert_eq!(vec!["foo", "bar"], stream.to_vec());
}

#[test]
fn stream_allows_to_stream_chars() {
    let mut stream = Stream::new("x".chars().collect());
    assert_eq!(stream.next(), Some('x'));
    assert_eq!(stream.next(), None);
}

#[test]
fn stream_allows_to_peek_ahead() {
    let mut stream = Stream::new("x".chars().collect());
    assert_eq!(stream.peek(), Some('x'));
}

#[test]
fn stream_peeking_does_not_consume_chars() {
    let mut stream = Stream::new("x".chars().collect());
    stream.peek();
    assert_eq!(stream.next(), Some('x'));
}

#[test]
fn stream_peeking_works_twice() {
    let mut stream = Stream::new("ab".chars().collect());
    stream.peek();
    assert_eq!(stream.peek(), Some('a'));
}

#[test]
fn stream_peeking_works_after_next() {
    let mut stream = Stream::new("ab".chars().collect());
    stream.next();
    assert_eq!(stream.peek(), Some('b'));
}

#[test]
fn exhausted_stream_keeps_yielding_none() {
    let mut stream = Stream::new(vec![1]);
    assert_eq!(stream.next(), Some(1));
    assert_eq!(stream.next(), None);
    assert_eq!(stream.next(), None);
    assert_eq!(stream.peek(), None);
    assert!(!stream.has_next());
}
