use git_odb::config::event::{Event, ParsedSectionHeader};
use git_odb::config::file::{GitConfig, GitConfigError};
use std::convert::TryFrom;

#[derive(Debug, PartialEq)]
enum Value {
    Other(Vec<u8>),
}

impl TryFrom<Vec<u8>> for Value {
    type Error = ();
    fn try_from(v: Vec<u8>) -> Result<Self, ()> {
        Ok(Value::Other(v))
    }
}

#[derive(Debug, PartialEq)]
enum TrueVariant {
    Explicit(Vec<u8>),
    Implicit,
}

#[derive(Debug, PartialEq)]
enum Boolean {
    True(TrueVariant),
    False(Vec<u8>),
}

impl TryFrom<Vec<u8>> for Boolean {
    type Error = ();
    fn try_from(v: Vec<u8>) -> Result<Self, ()> {
        match v.as_slice() {
            b"" => Ok(Boolean::True(TrueVariant::Implicit)),
            b"true" | b"yes" | b"on" | b"1" => Ok(Boolean::True(TrueVariant::Explicit(v))),
            b"false" | b"no" | b"off" | b"0" => Ok(Boolean::False(v)),
            _ => Err(()),
        }
    }
}

#[test]
fn parse_empty() {
    let config = GitConfig::try_from("").unwrap();
    assert_eq!(config.sections_len(), 0);
    assert_eq!(config.front_matter_len(), 0);
    assert!(config.to_bytes().is_empty());
    assert!(config.get_section_ids_by_name_and_subname("core", None).is_err());
    assert_eq!(config.to_string(), "");
}

#[test]
fn single_section() {
    let config = GitConfig::try_from("[core]\na=b\nc=d").unwrap();
    assert_eq!(config.get_raw_value("core", None, "a"), Ok(b"b".to_vec()));
    assert_eq!(config.get_raw_value("core", None, "c"), Ok(b"d".to_vec()));
}

#[test]
fn last_one_wins_respected_in_section() {
    let config = GitConfig::try_from("[core]\na=b\na=d").unwrap();
    assert_eq!(config.get_raw_value("core", None, "a"), Ok(b"d".to_vec()));
}

#[test]
fn last_one_wins_respected_across_section() {
    let config = GitConfig::try_from("[core]\na=b\n[core]\na=d").unwrap();
    assert_eq!(config.get_raw_value("core", None, "a"), Ok(b"d".to_vec()));
}

#[test]
fn section_not_found() {
    let config = GitConfig::try_from("[core]\na=b\nc=d").unwrap();
    assert_eq!(
        config.get_raw_value("foo", None, "a"),
        Err(GitConfigError::SectionDoesNotExist("foo"))
    );
}

#[test]
fn subsection_not_found() {
    let config = GitConfig::try_from("[core]\na=b\nc=d").unwrap();
    assert_eq!(
        config.get_raw_value("core", Some("a"), "a"),
        Err(GitConfigError::SubSectionDoesNotExist(Some("a")))
    );
}

#[test]
fn key_not_found() {
    let config = GitConfig::try_from("[core]\na=b\nc=d").unwrap();
    assert_eq!(
        config.get_raw_value("core", None, "aaaaaa"),
        Err(GitConfigError::KeyDoesNotExist("aaaaaa"))
    );
}

#[test]
fn subsection_must_be_respected() {
    let config = GitConfig::try_from("[core]a=b\n[core.a]a=c").unwrap();
    assert_eq!(config.get_raw_value("core", None, "a"), Ok(b"b".to_vec()));
    assert_eq!(config.get_raw_value("core", Some("a"), "a"), Ok(b"c".to_vec()));
}

#[test]
fn file_single_section() {
    let config = GitConfig::try_from("[core]\na=b\nc").unwrap();
    let first_value: Value = config.get_value("core", None, "a").unwrap();
    let second_value: Boolean = config.get_value("core", None, "c").unwrap();

    assert_eq!(first_value, Value::Other(b"b".to_vec()));
    assert_eq!(second_value, Boolean::True(TrueVariant::Implicit));
}

#[test]
fn single_value_is_identical_to_single_value_query() {
    let config = GitConfig::try_from("[core]\na=b\nc=d").unwrap();
    assert_eq!(
        vec![config.get_raw_value("core", None, "a").unwrap()],
        config.get_raw_multi_value("core", None, "a").unwrap()
    );
}

#[test]
fn multi_value_in_section() {
    let config = GitConfig::try_from("[core]\na=b\na=c").unwrap();
    assert_eq!(
        config.get_raw_multi_value("core", None, "a").unwrap(),
        vec![b"b".to_vec(), b"c".to_vec()]
    );
}

#[test]
fn multi_value_across_sections() {
    let config = GitConfig::try_from("[core]\na=b\na=c\n[core]a=d").unwrap();
    assert_eq!(
        config.get_raw_multi_value("core", None, "a").unwrap(),
        vec![b"b".to_vec(), b"c".to_vec(), b"d".to_vec()]
    );
}

#[test]
fn file_section_not_found() {
    let config = GitConfig::try_from("[core]\na=b\nc=d").unwrap();
    assert_eq!(
        config.get_raw_multi_value("foo", None, "a"),
        Err(GitConfigError::SectionDoesNotExist("foo"))
    );
}

#[test]
fn file_subsection_not_found() {
    let config = GitConfig::try_from("[core]\na=b\nc=d").unwrap();
    assert_eq!(
        config.get_raw_multi_value("core", Some("a"), "a"),
        Err(GitConfigError::SubSectionDoesNotExist(Some("a")))
    );
}

#[test]
fn file_key_not_found() {
    let config = GitConfig::try_from("[core]\na=b\nc=d").unwrap();
    assert_eq!(
        config.get_raw_multi_value("core", None, "aaaaaa"),
        Err(GitConfigError::KeyDoesNotExist("aaaaaa"))
    );
}

#[test]
fn file_subsection_must_be_respected() {
    let config = GitConfig::try_from("[core]a=b\n[core.a]a=c").unwrap();
    assert_eq!(
        config.get_raw_multi_value("core", None, "a").unwrap(),
        vec![b"b".to_vec()]
    );
    assert_eq!(
        config.get_raw_multi_value("core", Some("a"), "a").unwrap(),
        vec![b"c".to_vec()]
    );
}

#[test]
fn non_relevant_subsection_is_ignored() {
    let config = GitConfig::try_from("[core]\na=b\na=c\n[core]a=d\n[core]g=g").unwrap();
    assert_eq!(
        config.get_raw_multi_value("core", None, "a").unwrap(),
        vec![b"b".to_vec(), b"c".to_vec(), b"d".to_vec()]
    );
}

#[test]
fn can_reconstruct_empty_config() {
    let config = r#"

        "#;
    assert_eq!(GitConfig::try_from(config).unwrap().to_string(), config);
}

#[test]
fn can_reconstruct_non_empty_config() {
    let config = r#"
            [user]
                email = code@eddie.sh
            [core]
                autocrlf = input
            [push]
                default = simple
            [commit]
                gpgsign = true
            [gpg]
                program = gpg
            [url "ssh://git@github.com/"]
                insteadOf = "github://"
            [url "ssh://git@git.eddie.sh/edward/"]
                insteadOf = "gitea://"
            [pull]
                ff = only
            [init]
                defaultBranch = master
        "#;

    assert_eq!(GitConfig::try_from(config).unwrap().to_string(), config);
}

#[test]
fn can_reconstruct_configs_with_implicits() {
    let config = r#"
            [user]
                email
                name
            [core]
                autocrlf
            [push]
                default
            [commit]
                gpgsign
        "#;

    assert_eq!(GitConfig::try_from(config).unwrap().to_string(), config);
}

#[test]
fn can_reconstruct_configs_without_whitespace_in_middle() {
    let config = r#"
            [core]
                autocrlf=input
            [push]
                default=simple
            [commit]
                gpgsign=true
            [pull]
                ff = only
            [init]
                defaultBranch = master
        "#;

    assert_eq!(GitConfig::try_from(config).unwrap().to_string(), config);
}

fn section_header(name: &str, sub: Option<(&str, &str)>) -> ParsedSectionHeader {
    ParsedSectionHeader {
        name: name.as_bytes().to_vec(),
        separator: sub.map(|(sep, _)| sep.as_bytes().to_vec()),
        subsection_name: sub.map(|(_, n)| n.as_bytes().to_vec()),
    }
}

fn newline_event() -> Event {
    Event::Newline(b"\n".to_vec())
}

fn name_event(n: &str) -> Event {
    Event::Key(n.as_bytes().to_vec())
}

fn value_event(v: &str) -> Event {
    Event::Value(v.as_bytes().to_vec())
}

#[test]
fn parse_single_section() {
    let config = GitConfig::try_from("[core]\na=b\nc=d").unwrap();
    assert_eq!(config.sections()[0].header, section_header("core", None));
    assert_eq!(config.sections_len(), 1);
    assert_eq!(config.get_section_ids_by_name_and_subname("core", None), Ok(vec![0]));
    assert_eq!(
        config.sections()[0].events,
        vec![
            newline_event(),
            name_event("a"),
            Event::KeyValueSeparator,
            value_event("b"),
            newline_event(),
            name_event("c"),
            Event::KeyValueSeparator,
            value_event("d"),
        ]
    );
    assert_eq!(config.sections().len(), 1);
}

#[test]
fn parse_single_subsection() {
    let config = GitConfig::try_from("[core.subsec]\na=b\nc=d").unwrap();
    assert_eq!(config.sections()[0].header, section_header("core", Some((".", "subsec"))));
    assert_eq!(config.sections_len(), 1);
    assert_eq!(config.get_section_ids_by_name_and_subname("core", Some("subsec")), Ok(vec![0]));
    assert_eq!(
        config.sections()[0].events,
        vec![
            newline_event(),
            name_event("a"),
            Event::KeyValueSeparator,
            value_event("b"),
            newline_event(),
            name_event("c"),
            Event::KeyValueSeparator,
            value_event("d"),
        ]
    );
    assert_eq!(config.sections().len(), 1);
}

#[test]
fn parse_multiple_sections() {
    let config = GitConfig::try_from("[core]\na=b\nc=d\n[other]e=f").unwrap();
    assert_eq!(config.sections()[0].header, section_header("core", None));
    assert_eq!(config.sections()[1].header, section_header("other", None));
    assert_eq!(config.sections_len(), 2);
    assert_eq!(config.get_section_ids_by_name_and_subname("core", None), Ok(vec![0]));
    assert_eq!(config.get_section_ids_by_name_and_subname("other", None), Ok(vec![1]));
    assert_eq!(
        config.sections()[0].events,
        vec![
            newline_event(),
            name_event("a"),
            Event::KeyValueSeparator,
            value_event("b"),
            newline_event(),
            name_event("c"),
            Event::KeyValueSeparator,
            value_event("d"),
            newline_event(),
        ]
    );
    assert_eq!(
        config.sections()[1].events,
        vec![name_event("e"), Event::KeyValueSeparator, value_event("f")]
    );
}

#[test]
fn parse_multiple_duplicate_sections() {
    let config = GitConfig::try_from("[core]\na=b\nc=d\n[core]e=f").unwrap();
    assert_eq!(config.sections()[0].header, section_header("core", None));
    assert_eq!(config.sections()[1].header, section_header("core", None));
    assert_eq!(config.sections_len(), 2);
    assert_eq!(config.get_section_ids_by_name_and_subname("core", None), Ok(vec![0, 1]));
    assert_eq!(
        config.sections()[0].events,
        vec![
            newline_event(),
            name_event("a"),
            Event::KeyValueSeparator,
            value_event("b"),
            newline_event(),
            name_event("c"),
            Event::KeyValueSeparator,
            value_event("d"),
            newline_event(),
        ]
    );
    assert_eq!(
        config.sections()[1].events,
        vec![name_event("e"), Event::KeyValueSeparator, value_event("f")]
    );
}

#[test]
fn set_and_delete_values() {
    let mut config = GitConfig::try_from("[core]a=b\n[core]\na=c\na=d").unwrap();
    config.set_raw_value("core", None, "a", b"e".to_vec()).unwrap();
    assert_eq!(config.get_raw_value("core", None, "a"), Ok(b"e".to_vec()));
    assert_eq!(
        config.get_raw_multi_value("core", None, "a").unwrap(),
        vec![b"b".to_vec(), b"c".to_vec(), b"e".to_vec()]
    );

    let mut multi = config.get_raw_multi_value_mut("core", None, "a").unwrap();
    assert_eq!(multi.len(), 3);
    multi.set_string_all(&mut config, "g".to_string());
    assert_eq!(
        config.get_raw_multi_value("core", None, "a").unwrap(),
        vec![b"g".to_vec(), b"g".to_vec(), b"g".to_vec()]
    );
    multi.delete(&mut config, 0);
    assert_eq!(multi.len(), 2);
    assert_eq!(
        multi.value(&config).unwrap(),
        vec![b"g".to_vec(), b"g".to_vec()]
    );
    multi.delete_all(&mut config);
    assert!(multi.is_empty());
    assert_eq!(multi.value(&config), Err(GitConfigError::KeyDoesNotExist("a")));

    let mut config = GitConfig::try_from("[core]\na = \"quoted value\"\nb = x").unwrap();
    assert_eq!(config.get_raw_value("core", None, "a"), Ok(b"quoted value".to_vec()));
    let mut single = config.get_raw_value_mut("core", None, "b").unwrap();
    assert_eq!(single.value(&config), Ok(b"x".to_vec()));
    single.set_string(&mut config, "y".to_string());
    assert_eq!(config.get_raw_value("core", None, "b"), Ok(b"y".to_vec()));
    single.delete_value(&mut config);
    assert_eq!(single.value(&config), Err(GitConfigError::KeyDoesNotExist("b")));
    assert_eq!(config.to_string(), "[core]\na = \"quoted value\"\nb = ");
}

#[test]
fn set_multi_values_in_order() {
    let mut config = GitConfig::try_from("[core]a=b\n[core]\na=c\na=d").unwrap();
    config
        .set_raw_multi_value("core", None, "a", vec![b"x".to_vec(), b"y".to_vec()])
        .unwrap();
    assert_eq!(
        config.get_raw_multi_value("core", None, "a").unwrap(),
        vec![b"x".to_vec(), b"y".to_vec(), b"d".to_vec()]
    );
    assert_eq!(
        config.set_raw_multi_value("core", None, "zz", vec![]),
        Err(GitConfigError::KeyDoesNotExist("zz"))
    );
}

#[test]
fn continued_values_and_errors() {
    let config = GitConfig::try_from("[core]\na = one \\\ntwo\n; comment\n").unwrap();
    assert_eq!(config.get_raw_value("core", None, "a"), Ok(b"one two".to_vec()));
    assert_eq!(config.to_string(), "[core]\na = one \\\ntwo\n; comment\n");
    assert!(GitConfig::try_from("a = b").is_err());
    assert!(GitConfig::try_from("[core\n").is_err());
    assert!(GitConfig::try_from("[core]\n=").is_err());
}
