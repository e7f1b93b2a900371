use tmpas::command::parse_command_string;
use tmpas::config::{Config, UiConfig, UiTag};
use tmpas::entry::{ListEntry, RunFlags};
use tmpas::plugin::{DummyPlugin, EntryPlugin};

fn entry(name: Option<&str>, cmd: &str) -> ListEntry {
    ListEntry {
        display_name: name.map(|n| n.to_owned()),
        exec_command: parse_command_string(cmd),
        ..Default::default()
    }
}

#[test]
fn terminal_command_default_template() {
    let conf = Config::default();
    let e = entry(Some("Top"), "/usr/bin/htop -d 10");
    assert_eq!("htop  -d 10", conf.make_terminal_command(&e));
}

#[test]
fn terminal_command_placeholders() {
    let conf = Config {
        terminal: Some("alacritty -t $DISPLAY_NAME -e $BINARY$FLAGS".to_owned()),
        ..Default::default()
    };
    let e = entry(Some("Top"), "/usr/bin/htop -d 10");
    assert_eq!("alacritty -t Top -e htop -d 10", conf.make_terminal_command(&e));
    let e = entry(None, "vim");
    assert_eq!("alacritty -t vim -e vim", conf.make_terminal_command(&e));
}

#[test]
fn interfaces_enabled_unless_turned_off() {
    let mut conf = Config::default();
    assert!(conf.is_interface_enabled(UiTag::Iced));
    conf.interfaces.push((UiTag::Iced, UiConfig { enable: false, default: None }));
    assert!(!conf.is_interface_enabled(UiTag::Iced));
    assert!(conf.is_interface_enabled(UiTag::Crossterm));
    assert!(UiConfig::default().enable);
    assert_eq!(None, UiConfig::default().default);
}

#[test]
fn default_interface_choice() {
    let mut conf = Config::default();
    assert_eq!(UiTag::Smithay, conf.default_interface());
    conf.interfaces.push((UiTag::Smithay, UiConfig { enable: false, default: None }));
    assert_eq!(UiTag::Crossterm, conf.default_interface());
    conf.interfaces.push((UiTag::Crossterm, UiConfig { enable: true, default: Some(false) }));
    assert_eq!(UiTag::Iced, conf.default_interface());
    conf.interfaces.push((UiTag::Iced, UiConfig { enable: true, default: Some(false) }));
    assert_eq!(UiTag::Crossterm, conf.default_interface());
    conf.interfaces.push((UiTag::Smithay, UiConfig { enable: true, default: Some(true) }));
    assert_eq!(UiTag::Crossterm, conf.default_interface());
    let forced = Config {
        interfaces: vec![(UiTag::Iced, UiConfig { enable: true, default: Some(true) })],
        ..Default::default()
    };
    assert_eq!(UiTag::Iced, forced.default_interface());
}

#[test]
fn all_tags_in_order() {
    assert_eq!(vec![UiTag::Iced, UiTag::Crossterm, UiTag::Smithay], UiTag::all());
}

#[test]
fn run_flags_bits() {
    let f = RunFlags::new();
    assert!(!f.is_term());
    assert!(!f.should_fork());
    let t = f.with_term(true);
    assert!(t.is_term());
    assert!(!t.should_fork());
    let both = t.with_should_fork(true);
    assert!(both.is_term() && both.should_fork());
    let mut m = both;
    m.set_term(false);
    assert!(!m.is_term() && m.should_fork());
    m.set_should_fork(false);
    assert_eq!(RunFlags::new(), m);
}

#[test]
fn dummy_plugin_is_empty() {
    let mut d = DummyPlugin {};
    d.start(&Config::default());
    assert_eq!("Dummy", d.name());
    assert!(d.next().is_none());
}
