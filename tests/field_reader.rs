use cutr::text::{join_with, split_at_newline, to_fields};

fn read_fields(raw: &str, delimiter: char) -> (Vec<String>, String) {
    let (line, newline) = split_at_newline(raw);
    (
        to_fields(line, delimiter)
            .into_iter()
            .map(str::to_string)
            .collect(),
        String::from(newline),
    )
}

#[test]
fn test_to_fields() {
    assert_eq!(
        (
            vec![String::from("Hello"), String::from(" World!")],
            String::from("\n")
        ),
        read_fields("Hello, World!\n", ',')
    );

    assert_eq!(
        (
            vec![String::from("Hello"), String::from(" World!")],
            String::from("\r\n")
        ),
        read_fields("Hello, World!\r\n", ',')
    )
}

#[test]
fn field_reader_test_split_at_newline() {
    assert_eq!(("Hello, World!", "\n"), split_at_newline("Hello, World!\n"));
    assert_eq!(
        ("Hello, World!", "\r\n"),
        split_at_newline("Hello, World!\r\n")
    );
    assert_eq!(("Hello, ", "\nWorld!"), split_at_newline("Hello, \nWorld!"));
}

#[test]
fn to_fields_edge_cases() {
    assert_eq!(vec![""], to_fields("", ','));
    assert_eq!(vec!["", "", ""], to_fields(",,", ','));
    assert_eq!(vec!["a", "é", "c"], to_fields("aλéλc", 'λ'));
}

#[test]
fn join_with_delimiter() {
    assert_eq!("a\tb\tc", join_with(&vec!["a", "b", "c"], '\t'));
    assert_eq!("", join_with(&vec![], ','));
    assert_eq!("x", join_with(&vec!["x"], ','));
}
