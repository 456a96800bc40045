use cutr::text::split_at_newline;

#[test]
fn bufread_ext_test_split_at_newline() {
    assert_eq!(("Hello, World!", "\n"), split_at_newline("Hello, World!\n"));
    assert_eq!(
        ("Hello, World!", "\r\n"),
        split_at_newline("Hello, World!\r\n")
    );
    assert_eq!(("Hello, ", "\nWorld!"), split_at_newline("Hello, \nWorld!"));
}

#[test]
fn split_without_newline_keeps_whole_line() {
    assert_eq!(("Hello, World!", ""), split_at_newline("Hello, World!"));
    assert_eq!(("", ""), split_at_newline(""));
}

#[test]
fn split_lone_terminators() {
    assert_eq!(("", "\n"), split_at_newline("\n"));
    assert_eq!(("", "\r\n"), split_at_newline("\r\n"));
    assert_eq!(("a\r", "\r\n"), split_at_newline("a\r\r\n"));
    assert_eq!(("a\nb", "\n"), split_at_newline("a\nb\n"));
}
