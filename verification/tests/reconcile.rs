//! Tests for key derivation, rendering, resolution, diffing and merging.

use feedbinctl::config::{Config, Search};
use feedbinctl::diff::{diff_configs, DiffOp};
use feedbinctl::merge::{merge_configs, merge_vars};
use feedbinctl::pull::{assemble_config, build_vars, replace_all, rewrite_query, tag_var_name, u64_to_dec, Tag};
use feedbinctl::resolve::resolve_searches;
use feedbinctl::strmap::StrMap;
use feedbinctl::template::{render, RenderError};

fn s(x: &str) -> String {
    String::from(x)
}

#[test]
fn tag_var_name_basic() {
    assert_eq!(tag_var_name("GitHub"), "github_tag_id");
    assert_eq!(tag_var_name("My Tag"), "my_tag_tag_id");
    assert_eq!(tag_var_name("C++"), "c__tag_id");
}

#[test]
fn tag_var_name_deterministic() {
    assert_eq!(tag_var_name("My Tag"), tag_var_name("My Tag"));
    assert_eq!(tag_var_name(""), tag_var_name(""));
}

#[test]
fn tag_var_name_edges() {
    assert_eq!(tag_var_name(""), "_tag_id");
    assert_eq!(tag_var_name("A B"), "a_b_tag_id");
    assert_eq!(tag_var_name("A_B"), "a_b_tag_id");
    assert_eq!(tag_var_name("émoji"), "_moji_tag_id");
}

#[test]
fn u64_to_dec_values() {
    assert_eq!(u64_to_dec(0), "0");
    assert_eq!(u64_to_dec(7), "7");
    assert_eq!(u64_to_dec(42), "42");
    assert_eq!(u64_to_dec(18446744073709551615), "18446744073709551615");
}

#[test]
fn render_substitutes() {
    let mut vars = StrMap::new();
    vars.insert(s("tag"), s("42"));
    assert_eq!(render("foo {{ tag }}", &vars).unwrap(), "foo 42");
    assert_eq!(render("{{tag}} and {{ tag }}", &vars).unwrap(), "42 and 42");
    assert_eq!(render("no placeholders", &vars).unwrap(), "no placeholders");
    assert_eq!(render("", &vars).unwrap(), "");
    assert_eq!(render("lone { brace }", &vars).unwrap(), "lone { brace }");
}

#[test]
fn render_failures() {
    let vars = StrMap::new();
    assert!(matches!(
        render("{{ missing }}", &vars),
        Err(RenderError::Unresolved(v)) if v == "missing"
    ));
    assert!(matches!(render("a {{ open", &vars), Err(RenderError::Unclosed)));
    assert!(matches!(render("{{ }}", &vars), Err(RenderError::BadName)));
    assert!(matches!(render("{{ a b }}", &vars), Err(RenderError::BadName)));
}

#[test]
fn resolve_fails_fast_with_search_name() {
    let mut cfg = Config::default();
    cfg.searches.push(Search::new(s("S"), s("{{ missing }}")));
    let err = resolve_searches(&cfg).unwrap_err();
    assert_eq!(err.search, "S");
    assert!(matches!(err.err, RenderError::Unresolved(v) if v == "missing"));
}

#[test]
fn diff_basic() {
    let mut cur = Config::default();
    cur.vars.insert("tag".into(), "1".into());
    cur.searches.push(Search {
        name: "S1".into(),
        query: "foo {{ tag }}".into(),
    });
    cur.searches.push(Search {
        name: "S2".into(),
        query: "bar".into(),
    });

    let mut des = Config::default();
    des.vars.insert("tag".into(), "2".into());
    des.searches.push(Search {
        name: "S1".into(),
        query: "foo {{ tag }}".into(),
    });
    des.searches.push(Search {
        name: "S3".into(),
        query: "baz".into(),
    });

    let ops = diff_configs(&cur, &des).unwrap();
    assert_eq!(ops.len(), 3);
    assert!(
        matches!(ops[0], DiffOp::Create(_))
            || matches!(ops[1], DiffOp::Create(_))
            || matches!(ops[2], DiffOp::Create(_))
    );
    assert!(ops.iter().any(|o| matches!(o, DiffOp::Update { .. })));
    assert!(ops.iter().any(|o| matches!(o, DiffOp::Delete(_))));
}

#[test]
fn diff_identity_is_empty() {
    let mut cfg = Config::default();
    cfg.vars.insert(s("tag"), s("1"));
    cfg.searches.push(Search::new(s("S1"), s("foo {{ tag }}")));
    cfg.searches.push(Search::new(s("S2"), s("bar")));
    let ops = diff_configs(&cfg, &cfg).unwrap();
    assert!(ops.is_empty());
}

#[test]
fn diff_ordering_and_contents() {
    // current resolved {S1: "foo 1", S2: "bar"},
    // desired resolved {S1: "foo 2", S3: "baz"}
    let mut cur = Config::default();
    cur.searches.push(Search::new(s("S1"), s("foo 1")));
    cur.searches.push(Search::new(s("S2"), s("bar")));
    let mut des = Config::default();
    des.searches.push(Search::new(s("S1"), s("foo 2")));
    des.searches.push(Search::new(s("S3"), s("baz")));

    let ops = diff_configs(&cur, &des).unwrap();
    assert_eq!(ops.len(), 3);
    match &ops[0] {
        DiffOp::Update { from, to } => {
            assert_eq!(from.name, "S1");
            assert_eq!(from.query, "foo 1");
            assert_eq!(to.name, "S1");
            assert_eq!(to.query, "foo 2");
        }
        other => panic!("expected an update first, got {:?}", other),
    }
    match &ops[1] {
        DiffOp::Create(sx) => {
            assert_eq!(sx.name, "S3");
            assert_eq!(sx.query, "baz");
        }
        other => panic!("expected a create second, got {:?}", other),
    }
    match &ops[2] {
        DiffOp::Delete(sx) => {
            assert_eq!(sx.name, "S2");
            assert_eq!(sx.query, "bar");
        }
        other => panic!("expected a delete third, got {:?}", other),
    }
}

#[test]
fn diff_counts_match_name_sets() {
    // names(current) = {A, B, C}; names(desired) = {B, C, D, E};
    // B changes text, C stays equal.
    let mut cur = Config::default();
    cur.searches.push(Search::new(s("A"), s("qa")));
    cur.searches.push(Search::new(s("B"), s("qb")));
    cur.searches.push(Search::new(s("C"), s("qc")));
    let mut des = Config::default();
    des.searches.push(Search::new(s("B"), s("qb2")));
    des.searches.push(Search::new(s("C"), s("qc")));
    des.searches.push(Search::new(s("D"), s("qd")));
    des.searches.push(Search::new(s("E"), s("qe")));

    let ops = diff_configs(&cur, &des).unwrap();
    let creates = ops.iter().filter(|o| matches!(o, DiffOp::Create(_))).count();
    let updates = ops.iter().filter(|o| matches!(o, DiffOp::Update { .. })).count();
    let deletes = ops.iter().filter(|o| matches!(o, DiffOp::Delete(_))).count();
    assert_eq!(creates, 2); // D, E
    assert_eq!(updates, 1); // B
    assert_eq!(deletes, 1); // A
}

#[test]
fn diff_render_failure_produces_no_ops() {
    let mut cur = Config::default();
    cur.searches.push(Search::new(s("S"), s("{{ missing }}")));
    let des = Config::default();
    let err = diff_configs(&cur, &des).unwrap_err();
    assert_eq!(err.search, "S");
}

#[test]
fn merge_prefers_fresh_and_keeps_unique_existing() {
    let mut existing = StrMap::new();
    existing.insert(s("a"), s("1"));
    existing.insert(s("b"), s("2"));
    let mut fresh = StrMap::new();
    fresh.insert(s("b"), s("3"));
    fresh.insert(s("c"), s("4"));

    let merged = merge_vars(&existing, &fresh);
    assert_eq!(merged.len(), 3);
    assert_eq!(merged.get(&s("a")), Some(&s("1")));
    assert_eq!(merged.get(&s("b")), Some(&s("3")));
    assert_eq!(merged.get(&s("c")), Some(&s("4")));
}

#[test]
fn merge_replaces_searches_wholesale() {
    let mut existing = Config::default();
    existing.vars.insert(s("a"), s("1"));
    existing.searches.push(Search::new(s("Local"), s("kept locally")));
    let mut pulled = Config::default();
    pulled.vars.insert(s("a"), s("9"));
    pulled.searches.push(Search::new(s("Remote"), s("fetched")));

    let merged = merge_configs(&existing, pulled);
    assert_eq!(merged.vars.get(&s("a")), Some(&s("9")));
    assert_eq!(merged.searches.len(), 1);
    assert_eq!(merged.searches[0].name, "Remote");
}

#[test]
fn replace_all_rewrites_every_occurrence() {
    assert_eq!(replace_all("tag_id:42 OR tag_id:42", "tag_id:42", "X"), "X OR X");
    assert_eq!(replace_all("nothing here", "tag_id:42", "X"), "nothing here");
    assert_eq!(replace_all("aaa", "aa", "b"), "ba");
}

#[test]
fn rewrite_query_reverses_literals() {
    let mut vars = StrMap::new();
    vars.insert(s("github_tag_id"), s("42"));
    let q = s("tag_id:42 is:unread");
    assert_eq!(rewrite_query(&q, &vars), "tag_id:{{ github_tag_id }} is:unread");
}

#[test]
fn build_vars_and_assemble() {
    let tags = vec![
        Tag { id: 42, name: s("GitHub") },
        Tag { id: 99, name: s("Acme") },
    ];
    let vars = build_vars(&tags);
    assert_eq!(vars.get(&s("github_tag_id")), Some(&s("42")));
    assert_eq!(vars.get(&s("acme_tag_id")), Some(&s("99")));

    let searches = vec![Search::new(s("Repos"), s("tag_id:42 is:unread"))];
    let cfg = assemble_config(searches, &tags);
    assert_eq!(cfg.searches.len(), 1);
    assert_eq!(cfg.searches[0].name, "Repos");
    assert_eq!(cfg.searches[0].query, "tag_id:{{ github_tag_id }} is:unread");
}

#[test]
fn strmap_insert_is_last_write_wins_and_sorted() {
    let mut m = StrMap::new();
    m.insert(s("b"), s("1"));
    m.insert(s("a"), s("2"));
    m.insert(s("b"), s("3"));
    assert_eq!(m.len(), 2);
    assert_eq!(m.get(&s("b")), Some(&s("3")));
    let (k0, _) = m.entry_at(0);
    let (k1, _) = m.entry_at(1);
    assert_eq!(k0, "a");
    assert_eq!(k1, "b");
}
