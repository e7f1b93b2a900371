use tmpas::command::parse_command_string;

#[test]
fn parse_cmd() {
    let simple = "/usr/bin/cat mout.txt";
    assert_eq!(
        parse_command_string(simple),
        vec!["/usr/bin/cat".to_owned(), "mout.txt".to_owned()]
    );

    let complex = r#" echo "Hello World!" "My name is 'ilan'" "What is `\\\"yours\"`"? "#;
    assert_eq!(
        parse_command_string(complex),
        vec![
            "echo".to_owned(),
            "Hello World!".to_owned(),
            "My name is 'ilan'".to_owned(),
            "What is `\\\"yours\"`".to_owned(),
            "?".to_owned()
        ]
    );
}

#[test]
fn empty_command_gives_one_empty_word() {
    assert_eq!(parse_command_string(""), vec!["".to_owned()]);
    assert_eq!(parse_command_string("   "), vec!["".to_owned()]);
}

#[test]
fn escaped_space_stays_in_word() {
    assert_eq!(
        parse_command_string(r"a\ b c"),
        vec!["a b".to_owned(), "c".to_owned()]
    );
    assert_eq!(
        parse_command_string("'one two'`three`"),
        vec!["one two".to_owned(), "three".to_owned()]
    );
}
