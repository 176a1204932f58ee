//! What the arguments ask for.

use adblock_rust_compat::command::{
    read_command, value_of, values_of, Command, DomainChoice, Output, Place, ScanCommand,
};
use adblock_rust_compat::lists::UBO_URL;

fn args(list: &[&str]) -> Vec<String> {
    list.iter().map(|s| s.to_string()).collect()
}

fn scan(list: &[&str]) -> ScanCommand {
    match read_command(&args(list)) {
        Command::Scan(s) => s,
        _ => panic!("a scan"),
    }
}

#[test]
fn values_stand_behind_flags() {
    let a = args(&["--url", "x", "--url", "--url", "y", "--file"]);
    assert_eq!(value_of(&a, "--url"), Some("x".to_string()));
    assert_eq!(values_of(&a, "--url"), vec!["x", "--url", "y"]);
    assert_eq!(value_of(&a, "--file"), None);
    assert!(values_of(&a, "--file").is_empty());
    assert_eq!(value_of(&a, "--list"), None);
    assert_eq!(value_of(&args(&[]), "--list"), None);
}

#[test]
fn help_comes_before_everything() {
    assert!(matches!(read_command(&args(&["--rule", "x", "-h"])), Command::Help));
    assert!(matches!(read_command(&args(&["--help"])), Command::Help));
}

#[test]
fn a_rule_is_explained_and_not_scanned() {
    match read_command(&args(&["--file", "f", "--rule", "||a.com^", "--probe"])) {
        Command::Explain { rule, probe } => {
            assert_eq!(rule, "||a.com^");
            assert!(probe);
        }
        _ => panic!("an explanation"),
    }
    assert!(matches!(read_command(&args(&["--rule"])), Command::Scan(_)));
}

#[test]
fn sources_come_in_order() {
    let s = scan(&[
        "--url", "http://u", "--list", "ubo, https://l", "--file", "f", "--list", "bad",
    ]);
    let names: Vec<&str> = s.wanted.iter().map(|w| w.name.as_str()).collect();
    assert_eq!(names, vec!["f", "ubo", "https://l", "bad", "http://u"]);
    let labels: Vec<&str> = s.wanted.iter().map(|w| w.label.as_str()).collect();
    assert_eq!(labels, vec!["file f", UBO_URL, "https://l", "bad", "http://u"]);
    assert!(matches!(&s.wanted[0].place, Place::File(p) if p == "f"));
    assert!(matches!(&s.wanted[1].place, Place::Url(u) if u == UBO_URL));
    assert!(matches!(&s.wanted[3].place, Place::Unknown(m) if m.starts_with("unknown list 'bad'")));
    assert!(matches!(&s.wanted[4].place, Place::Url(u) if u == "http://u"));
}

#[test]
fn scans_carry_their_choices() {
    let plain = scan(&[]);
    assert!(plain.wanted.is_empty());
    assert_eq!(plain.option, None);
    assert!(matches!(plain.domains, DomainChoice::All));
    assert!(!plain.probe);
    assert!(!plain.show_supported);
    assert_eq!(plain.output, Output::Text);

    let s = scan(&[
        "--option",
        " Replace ",
        "--domains",
        "a.com, ,B.com",
        "--probe",
        "--show-supported",
        "--markdown",
    ]);
    assert_eq!(s.option.as_deref(), Some("replace"));
    match &s.domains {
        DomainChoice::Listed(d) => assert_eq!(*d, vec!["a.com", "B.com"]),
        _ => panic!("domains"),
    }
    assert!(s.probe);
    assert!(s.show_supported);
    assert_eq!(s.output, Output::Markdown);
    assert_eq!(scan(&["--markdown", "--json"]).output, Output::Json);
    assert!(matches!(scan(&["--domains", " , "]).domains, DomainChoice::Missing));
    assert!(matches!(scan(&["--domains"]).domains, DomainChoice::All));
}
