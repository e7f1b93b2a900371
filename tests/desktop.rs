use tmpas::desktop::{
    parse_line, section_to_entry, split_spaces, EntryError, LineError, LineKind, Section,
    SectionReader,
};

fn read(lines: &[&str]) -> Vec<Section> {
    let mut reader = SectionReader::new();
    let mut out = Vec::new();
    for l in lines {
        if let Some(s) = reader.push(l).unwrap() {
            out.push(s);
        }
    }
    if let Some(s) = reader.finish() {
        out.push(s);
    }
    out
}

#[test]
fn line_kinds() {
    assert!(matches!(parse_line("   "), Ok(LineKind::Whitespace)));
    match parse_line("  # note ") {
        Ok(LineKind::Comment(c)) => assert_eq!(" note", c),
        other => panic!("{:?}", other),
    }
    match parse_line("[Desktop Entry]") {
        Ok(LineKind::SectionHeader(h)) => assert_eq!("Desktop Entry", h),
        other => panic!("{:?}", other),
    }
    match parse_line(" Name[de] = Rechner = x ") {
        Ok(LineKind::KeyValue { key, value, attribute }) => {
            assert_eq!("Name", key);
            assert_eq!("Rechner = x", value);
            assert_eq!(Some("de".to_owned()), attribute);
        }
        other => panic!("{:?}", other),
    }
    match parse_line("Exec=foo") {
        Ok(LineKind::KeyValue { key, value, attribute }) => {
            assert_eq!("Exec", key);
            assert_eq!("foo", value);
            assert_eq!(None, attribute);
        }
        other => panic!("{:?}", other),
    }
    match parse_line("Key[x=1") {
        Ok(LineKind::KeyValue { key, attribute, .. }) => {
            assert_eq!("Key[x", key);
            assert_eq!(None, attribute);
        }
        other => panic!("{:?}", other),
    }
    assert_eq!("garbage here", parse_line("  garbage here ").unwrap_err());
    assert!(parse_line("[").is_err());
}

#[test]
fn reader_splits_sections() {
    let sections = read(&[
        "# comment",
        "[Desktop Entry]",
        "Name=Calculator",
        "Name[de]=Rechner",
        "Exec=calc %u",
        "Terminal=false",
        "",
        "[Desktop Action new]",
        "Name=New",
    ]);
    assert_eq!(2, sections.len());
    assert_eq!("Desktop Entry", sections[0].header);
    assert_eq!(Some("Calculator".to_owned()), sections[0].name(None));
    assert_eq!(Some("Rechner".to_owned()), sections[0].name(Some("de")));
    assert_eq!(Some("Calculator".to_owned()), sections[0].name(Some("fr")));
    assert_eq!(Some("calc".to_owned()), sections[0].get_cmd());
    assert!(!sections[0].is_term());
    assert_eq!("Desktop Action new", sections[1].header);
    assert_eq!(None, sections[1].get_cmd());
}

#[test]
fn reader_refuses_duplicates_and_bad_lines() {
    let mut reader = SectionReader::new();
    assert_eq!(Ok(None), reader.push("[A]").map(|s| s.map(|s| s.header)));
    assert!(reader.push("Name=x").is_ok());
    assert!(matches!(reader.push("Name=y"), Err(LineError::Duplicate(_))));
    assert!(reader.push("Name[fr]=z").is_ok());
    assert!(matches!(reader.push("Name[fr]=w"), Err(LineError::Duplicate(_))));
    assert!(matches!(reader.push("what"), Err(LineError::Unreadable(_))));
    let s = reader.finish().unwrap();
    assert_eq!(Some("x".to_owned()), s.get_field("Name"));
    assert_eq!(Some("z".to_owned()), s.name(Some("fr")));
    assert!(SectionReader::new().finish().is_none());
}

#[test]
fn commands_and_terminal() {
    let s = &read(&["[E]", "Exec=vim %F", "TryExec=nvim", "Terminal=True"])[0];
    assert_eq!(Some("nvim".to_owned()), s.get_cmd());
    assert!(s.is_term());
    let s = &read(&["[E]", "Exec=%u"])[0];
    assert_eq!(Some("".to_owned()), s.get_cmd());
    let s = &read(&["[E]", "Exec=top"])[0];
    assert_eq!(Some("top".to_owned()), s.get_cmd());
    assert!(!s.is_term());
    assert!(Section::new("x".to_owned()).get_field("Exec").is_none());
    assert!(!Section::new("x".to_owned()).is_blank());
    assert!(Section::new(String::new()).is_blank());
}

#[test]
fn section_entries() {
    let s = &read(&["[E]", "Name=Terminal", "Name[de]=Konsole", "Exec=xterm -e  sh %u", "Terminal=true"])[0];
    let e = section_to_entry(s, Some("de")).unwrap();
    assert_eq!(Some("Konsole".to_owned()), e.display_name);
    assert_eq!(vec!["xterm", "-e", "", "sh"], e.exec_command);
    assert_eq!(vec!["Konsole", "xterm"], e.search_terms);
    assert!(e.exec_flags.is_term());
    assert!(!e.exec_flags.should_fork());
    assert!(e.children.is_empty());
    let unnamed = &read(&["[E]", "Exec=x"])[0];
    assert_eq!(EntryError::NoName, section_to_entry(unnamed, None).unwrap_err());
    let no_cmd = &read(&["[E]", "Name=x"])[0];
    assert_eq!(EntryError::NoCommand, section_to_entry(no_cmd, None).unwrap_err());
}

#[test]
fn splitting_keeps_empty_parts() {
    assert_eq!(vec!["a", "", "b"], split_spaces("a  b"));
    assert_eq!(vec![""], split_spaces(""));
    assert_eq!(vec!["", ""], split_spaces(" "));
}
