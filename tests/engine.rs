use cutr::options::{Options, Range};
use cutr::Command;

fn fields(delimiter: char, ranges: Vec<Range>) -> Options {
    Options { delimiter, fields: Some(ranges), bytes: None, characters: None }
}

fn bytes(ranges: Vec<Range>) -> Options {
    Options { delimiter: '\t', fields: None, bytes: Some(ranges), characters: None }
}

fn chars(ranges: Vec<Range>) -> Options {
    Options { delimiter: '\t', fields: None, bytes: None, characters: Some(ranges) }
}

fn run(options: &Options, raw: &str) -> String {
    Command::from(options).process_line(raw)
}

#[test]
fn fields_pick_each_position() {
    let o = fields(',', vec![Range::new(1, 1), Range::new(3, 3)]);
    assert_eq!("a,c\n", run(&o, "a,b,c\n"));
}

#[test]
fn fields_out_of_range_select_nothing() {
    let o = fields(',', vec![Range::new(5, 5)]);
    assert_eq!("\n", run(&o, "a,b,c\n"));
}

#[test]
fn fields_keep_order_and_duplicates() {
    let o = fields(',', vec![Range::new(3, 3), Range::new(1, 1), Range::new(3, 3)]);
    assert_eq!("c,a,c", run(&o, "a,b,c"));
}

#[test]
fn fields_descending_and_open_ranges() {
    assert_eq!("c,b,a", run(&fields(',', vec![Range::new(3, 1)]), "a,b,c"));
    assert_eq!("c,b,a", run(&fields(',', vec![Range::new(10, 1)]), "a,b,c"));
    assert_eq!("b,c", run(&fields(',', vec![Range::new(2, 0)]), "a,b,c"));
    assert_eq!("a,b", run(&fields(',', vec![Range::new(0, 2)]), "a,b,c"));
    assert_eq!("", run(&fields(',', vec![Range::new(0, 0)]), "a,b,c"));
}

#[test]
fn fields_default_tab_delimiter() {
    let o = fields('\t', vec![Range::new(2, 2)]);
    assert_eq!("y\n", run(&o, "x\ty\tz\n"));
}

#[test]
fn bytes_select_contiguous_span() {
    let o = bytes(vec![Range::new(2, 4)]);
    assert_eq!("ell\n", run(&o, "hello\n"));
}

#[test]
fn bytes_descending_span_is_normalised() {
    let o = bytes(vec![Range::new(4, 2)]);
    assert_eq!("ell", run(&o, "hello"));
}

#[test]
fn bytes_spans_concatenate_without_separator() {
    let o = bytes(vec![Range::new(1, 1), Range::new(4, 0), Range::new(9, 12)]);
    assert_eq!("hlo", run(&o, "hello"));
}

#[test]
fn bytes_cut_inside_character_is_replaced() {
    let o = bytes(vec![Range::new(1, 1)]);
    assert_eq!("\u{FFFD}", run(&o, "é"));
    let o = bytes(vec![Range::new(1, 2)]);
    assert_eq!("é", run(&o, "éa"));
}

#[test]
fn chars_keep_grapheme_cluster_whole() {
    let o = chars(vec![Range::new(3, 3)]);
    assert_eq!("e\u{301}", run(&o, "abe\u{301}d"));
    let o = chars(vec![Range::new(1, 2)]);
    assert_eq!("🇷🇺🇸🇹", run(&o, "🇷🇺🇸🇹x"));
}

#[test]
fn chars_span_and_out_of_range() {
    let o = chars(vec![Range::new(2, 0), Range::new(7, 9)]);
    assert_eq!("bc\n", run(&o, "abc\n"));
}

#[test]
fn whole_selection_reproduces_line() {
    let line = "a,b,,d";
    assert_eq!(line, run(&fields(',', vec![Range::new(1, 4)]), line));
    assert_eq!(line, run(&fields(',', vec![Range::new(1, 2), Range::new(3, 0)]), line));
    let text = "hé\u{301}llo";
    let all = text.len();
    assert_eq!(text, run(&bytes(vec![Range::new(1, 1), Range::new(2, all)]), text));
    assert_eq!(text, run(&chars(vec![Range::new(1, 2), Range::new(3, 0)]), text));
}

#[test]
fn crlf_terminator_is_kept() {
    let o = fields(',', vec![Range::new(2, 2)]);
    assert_eq!("b\r\n", run(&o, "a,b\r\n"));
    let o = bytes(vec![Range::new(1, 0)]);
    assert_eq!("a,b\r\n", run(&o, "a,b\r\n"));
}

#[test]
fn unterminated_last_line_gets_no_newline() {
    let o = fields(',', vec![Range::new(1, 1)]);
    assert_eq!("a", run(&o, "a,b"));
}

#[test]
fn no_mode_writes_nothing() {
    let o = Options { delimiter: '\t', fields: None, bytes: None, characters: None };
    assert_eq!("", run(&o, "a\n"));
}

#[test]
fn read_error_does_not_stop_later_lines() {
    let o = fields(',', vec![Range::new(2, 2)]);
    let c = Command::from(&o);
    let items: Vec<Result<&str, &str>> = vec![Ok("a,b\n"), Err("stream did not contain valid UTF-8"), Ok("c,d\n")];
    let out: Vec<Result<String, String>> = items.into_iter().map(|i| c.process_item(i)).collect();
    assert_eq!(
        vec![
            Ok(String::from("b\n")),
            Err(String::from("stream did not contain valid UTF-8")),
            Ok(String::from("d\n"))
        ],
        out
    );
}

#[test]
fn process_modes_directly() {
    let o = fields(':', vec![Range::new(2, 3)]);
    let c = Command::from(&o);
    assert_eq!("b:c", c.process_fields("a:b:c:d"));
    assert_eq!("", c.process_bytes("a:b"));
    assert_eq!("", c.process_chars("a:b"));
    assert_eq!("b:c", c.process_content("a:b:c:d"));
}
