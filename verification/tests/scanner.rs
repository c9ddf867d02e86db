use competitive_template::scanner::Scanner;

fn scan(text: &str) -> Scanner {
    Scanner::new(text.as_bytes().to_vec())
}

#[test]
fn tokens_are_split_at_white_space() {
    let mut scanner = scan("  12 abc\t-7\n\nx");
    assert_eq!(scanner.next(), b"12".to_vec());
    assert_eq!(scanner.next(), b"abc".to_vec());
    assert_eq!(scanner.next(), b"-7".to_vec());
    assert_eq!(scanner.next(), b"x".to_vec());
    assert_eq!(scanner.next(), Vec::<u8>::new());
    assert_eq!(scanner.next(), Vec::<u8>::new());
}

#[test]
fn vertical_tab_is_no_white_space() {
    let mut scanner = scan("a\x0bb\x0cc\rd");
    assert_eq!(scanner.next(), b"a\x0bb".to_vec());
    assert_eq!(scanner.next(), b"c".to_vec());
    assert_eq!(scanner.next(), b"d".to_vec());
}

#[test]
fn several_tokens_at_once() {
    let mut scanner = scan("1 2 3\n4 5");
    assert_eq!(scanner.next_vec(3), vec![b"1".to_vec(), b"2".to_vec(), b"3".to_vec()]);
    assert_eq!(scanner.next_vec(0), Vec::<Vec<u8>>::new());
    assert_eq!(
        scanner.next_vec(3),
        vec![b"4".to_vec(), b"5".to_vec(), Vec::<u8>::new()]
    );
}

#[test]
fn lines_end_at_line_feeds() {
    let mut scanner = scan("5\n  hello world  \n\n\nlast line");
    assert_eq!(scanner.next(), b"5".to_vec());
    assert_eq!(scanner.next_line(), b"hello world  ".to_vec());
    assert_eq!(scanner.next_line(), b"last line".to_vec());
    assert_eq!(scanner.next_line(), Vec::<u8>::new());
    let mut scanner = scan("a b\nc");
    assert_eq!(scanner.next(), b"a".to_vec());
    assert_eq!(scanner.next_line(), b"b".to_vec());
    assert_eq!(scanner.next(), b"c".to_vec());
}

#[test]
fn scanner_of_nothing() {
    let mut scanner = scan("");
    assert_eq!(scanner.next(), Vec::<u8>::new());
    assert_eq!(scanner.next_line(), Vec::<u8>::new());
    assert_eq!(scanner.next_vec(2), vec![Vec::<u8>::new(), Vec::<u8>::new()]);
}
