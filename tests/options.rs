use cutr::options::Range;
use std::str::FromStr;

fn parsed(s: &str) -> Range {
    Range::from_str(s).unwrap()
}

fn first(range: Range, k: usize) -> Vec<usize> {
    range.positions().take(k)
}

#[test]
fn from_str_single() {
    assert_eq!(Range::new(1, 1), parsed("1"));
    assert_eq!(Range::new(42, 42), parsed("42"));
}

#[test]
fn from_str_closed() {
    assert_eq!(Range::new(1, 3), parsed("1-3"));
    assert_eq!(Range::new(3, 1), parsed("3-1"));
}

#[test]
fn from_str_open() {
    assert_eq!(Range::new(0, 3), parsed("-3"));
    assert_eq!(Range::new(1, 0), parsed("1-"));
}

#[test]
fn from_str_largest() {
    let max = usize::MAX.to_string();
    assert_eq!(Range::new(usize::MAX, usize::MAX), parsed(&max));
}

#[test]
fn from_str_rejects_malformed_tokens() {
    for token in ["", "-", "a", "1-2-3", "1x", " 1", "1 -2", "+1", "18446744073709551616"] {
        let err = Range::parse(token).unwrap_err();
        assert_eq!(token, err.token);
    }
    assert!(Range::from_str("3-b").is_err());
}

#[test]
fn into_iter_single() {
    assert_eq!(vec![1], first(Range::new(1, 1), 1));
}

#[test]
fn into_iter_open_end() {
    assert_eq!(vec![1], first(Range::new(1, 0), 1));
    assert_eq!(vec![5, 6, 7, 8], first(Range::new(5, 0), 4));
}

#[test]
fn into_iter_ascending() {
    assert_eq!(vec![1, 2, 3], first(Range::new(1, 3), 3));
    assert_eq!(vec![2, 3, 4], first(Range::new(2, 4), 10));
}

#[test]
fn into_iter_descending() {
    assert_eq!(vec![3, 2, 1], first(Range::new(3, 1), 3));
    assert_eq!(vec![9, 8, 7], first(Range::new(9, 7), 10));
}

#[test]
fn into_iter_open_start() {
    assert_eq!(vec![1, 2, 3], first(Range::new(0, 3), 3));
}

#[test]
fn into_iter_empty() {
    assert_eq!(Vec::<usize>::new(), first(Range::new(0, 0), 5));
}

#[test]
fn positions_next_one_at_a_time() {
    let mut p = Range::new(2, 3).positions();
    assert_eq!(Some(2), p.next());
    assert_eq!(Some(3), p.next());
    assert_eq!(None, p.next());
    assert_eq!(None, p.next());
}

#[test]
fn open_end_stops_at_usize_max() {
    assert_eq!(vec![usize::MAX - 1, usize::MAX], first(Range::new(usize::MAX - 1, 0), 5));
}

#[test]
fn bounds_clamps_to_unit_count() {
    assert_eq!(Some((2, 5)), Range::new(2, 0).bounds(5));
    assert_eq!(Some((2, 3)), Range::new(9, 2).bounds(3));
    assert_eq!(None, Range::new(6, 9).bounds(5));
    assert_eq!(None, Range::new(0, 0).bounds(5));
}
