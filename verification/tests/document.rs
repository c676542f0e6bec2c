//! Tests for the configuration document reader and writer and for path
//! resolution.

use feedbinctl::codec::{parse_config as parse, to_toml, ParseError};
use feedbinctl::config::{Config, Search};
use feedbinctl::paths::config_path_from_env;

fn s(x: &str) -> String {
    String::from(x)
}

const SAMPLE_CONFIG: &str = r#"
# feedbinctl configuration

[vars]
github_tag_id = "42"           # GitHub
acme_tag_id = "99"             # Acme
x_tag_id = "1234"              # X
mastadon_tag_id = "54321"      # Mastodon
topic_query = '"emacs" OR "plan9" OR "rust"'
recent_filter = 'published:>now-7d'
social = "tag_id:{{ x_tag_id }} OR tag_id:{{ mastodon_tag_id }}"

[[searches]]
name  = "Keywords"
query = "{{ topic_query }}"

[[searches]]
name  = "Keywords Unread"
query = "{{ topic_query }} is:starred"

[[searches]]
name  = "Keywords Recent"
query = "{{ topic_query }} {{ recent_filter }}"

[[searches]]
name  = "Social"
query = "{{ social }}"
"#;

#[test]
fn parse_config() {
    let cfg: Config = parse(SAMPLE_CONFIG).unwrap();
    assert_eq!(cfg.vars.get(&s("github_tag_id")), Some(&"42".to_string()));
    assert_eq!(cfg.searches.len(), 4);
    assert_eq!(cfg.searches[0].name, "Keywords");
}

#[test]
fn round_trip_config() {
    let cfg: Config = parse(SAMPLE_CONFIG).unwrap();
    let toml = to_toml(&cfg);
    let de: Config = parse(&toml).unwrap();
    assert_eq!(cfg, de);
}

#[test]
fn round_trip_escaped_values() {
    let mut cfg = Config::default();
    cfg.vars.insert(s("k"), s("a\"b\\c\nd"));
    cfg.searches.push(Search::new(s("N \"quoted\""), s("line1\nline2")));
    let toml = to_toml(&cfg);
    let de = parse(&toml).unwrap();
    assert_eq!(cfg, de);
}

#[test]
fn serializer_is_deterministic_and_sorted() {
    let mut cfg = Config::default();
    cfg.vars.insert(s("zeta"), s("1"));
    cfg.vars.insert(s("alpha"), s("2"));
    let toml = to_toml(&cfg);
    assert_eq!(toml, "[vars]\nalpha = \"2\"\nzeta = \"1\"\n");
}

#[test]
fn parse_rejects_bad_lines() {
    assert!(matches!(parse("[vars]\nx = "), Err(ParseError::BadLine)));
    assert!(matches!(parse("[vars]\nx = bare"), Err(ParseError::BadLine)));
    assert!(matches!(parse("[vars]\nx = \"unterminated"), Err(ParseError::BadLine)));
    assert!(matches!(parse("[vars]\nx = \"bad \\z escape\""), Err(ParseError::BadLine)));
    assert!(matches!(parse("[vars]\nnot a kv line"), Err(ParseError::BadLine)));
    assert!(matches!(parse("[vars]\nx = \"1\" trailing"), Err(ParseError::BadLine)));
}

#[test]
fn parse_rejects_misplaced_and_incomplete() {
    assert!(matches!(parse("x = \"1\""), Err(ParseError::StrayKey)));
    assert!(matches!(parse("[[searches]]\nname = \"a\""), Err(ParseError::IncompleteSearch)));
    assert!(matches!(
        parse("[[searches]]\nname = \"a\"\nquery = \"q\"\nextra = \"x\""),
        Err(ParseError::UnknownKey)
    ));
    assert!(matches!(
        parse("[[searches]]\nname = \"a\"\nname = \"b\"\nquery = \"q\""),
        Err(ParseError::DupKey)
    ));
}

#[test]
fn parse_accepts_comments_blanks_and_empty() {
    let cfg = parse("").unwrap();
    assert_eq!(cfg.vars.len(), 0);
    assert_eq!(cfg.searches.len(), 0);
    let cfg = parse("# only a comment\n\n   \n").unwrap();
    assert_eq!(cfg.vars.len(), 0);
}

#[test]
fn config_path_prefers_config_home() {
    assert_eq!(
        config_path_from_env(Some("/xdg"), Some("/home/u")),
        Some(s("/xdg/feedbinctl/config"))
    );
    assert_eq!(
        config_path_from_env(None, Some("/home/u")),
        Some(s("/home/u/.config/feedbinctl/config"))
    );
    assert_eq!(config_path_from_env(None, None), None);
}
