//! Reading and writing the configuration document: a flat `[vars]`
//! key/value section followed by repeated `[[searches]]` records with
//! exactly a `name` and a `query` field. The writer emits keys in
//! ascending order with double-quoted, escaped values; the reader also
//! accepts comments, blank lines and single-quoted literal values.

use vstd::prelude::*;
use vstd::string::*;

use crate::config::{Config, Search, SearchV};
use crate::strmap::{sm_insert, sm_wf, EntrySeq, StrMap};
use crate::strutil::{exec_is_space, is_space, push_char};
use crate::template::{lemma_trim_left_at, lemma_trim_right_at, trim};

verus! {

// ---------------------------------------------------------------------
// escaping
// ---------------------------------------------------------------------
/// How one character is written inside a double-quoted value.
pub open spec fn esc_char(c: char) -> Seq<char> {
    if c == '\\' {
        seq!['\\', '\\']
    } else if c == '"' {
        seq!['\\', '"']
    } else if c == '\n' {
        seq!['\\', 'n']
    } else {
        seq![c]
    }
}

/// A value with backslashes, double quotes and newlines escaped.
pub open spec fn esc(s: Seq<char>) -> Seq<char>
    decreases s.len(),
{
    if s.len() == 0 {
        Seq::empty()
    } else {
        esc(s.drop_last()) + esc_char(s.last())
    }
}

/// What a backslash escape denotes, if valid.
pub open spec fn unesc(c: char) -> Option<char> {
    if c == '\\' {
        Some('\\')
    } else if c == '"' {
        Some('"')
    } else if c == 'n' {
        Some('\n')
    } else {
        None
    }
}

// ---------------------------------------------------------------------
// the serialized form
// ---------------------------------------------------------------------
pub open spec fn lit_vars_header() -> Seq<char> {
    seq!['[', 'v', 'a', 'r', 's', ']']
}

pub open spec fn lit_searches_header() -> Seq<char> {
    seq!['[', '[', 's', 'e', 'a', 'r', 'c', 'h', 'e', 's', ']', ']']
}

pub open spec fn lit_name() -> Seq<char> {
    seq!['n', 'a', 'm', 'e']
}

pub open spec fn lit_query() -> Seq<char> {
    seq!['q', 'u', 'e', 'r', 'y']
}

/// One `key = "value"` line, with the value escaped.
pub open spec fn kv_line(k: Seq<char>, v: Seq<char>) -> Seq<char> {
    k + seq![' ', '=', ' ', '"'] + esc(v) + seq!['"', '\n']
}

/// The emitted `[vars]` entries from position `i` on.
pub open spec fn ser_vars(vars: EntrySeq, i: int) -> Seq<char>
    decreases vars.len() - i,
{
    if i < 0 || i >= vars.len() {
        Seq::empty()
    } else {
        kv_line(vars[i].0, vars[i].1) + ser_vars(vars, i + 1)
    }
}

/// The emitted `[[searches]]` records from position `i` on.
pub open spec fn ser_searches(ss: Seq<SearchV>, i: int) -> Seq<char>
    decreases ss.len() - i,
{
    if i < 0 || i >= ss.len() {
        Seq::empty()
    } else {
        seq!['\n'] + lit_searches_header() + seq!['\n'] + kv_line(lit_name(), ss[i].name) + kv_line(
            lit_query(),
            ss[i].query,
        ) + ser_searches(ss, i + 1)
    }
}

/// The whole document for a configuration.
pub open spec fn spec_to_toml(c: crate::config::ConfigV) -> Seq<char> {
    lit_vars_header() + seq!['\n'] + ser_vars(c.vars, 0) + ser_searches(c.searches, 0)
}

/// Append the escaped form of `s` to `out`.
fn push_escaped(out: &mut String, s: &str)
    ensures
        final(out)@ == old(out)@ + esc(s@),
{
    let n = s.unicode_len();
    let mut i: usize = 0;
    proof {
        assert(esc(s@.take(0)) =~= Seq::<char>::empty());
        assert(old(out)@ + Seq::<char>::empty() =~= old(out)@);
    }
    while i < n
        invariant
            i <= n,
            n == s@.len(),
            out@ == old(out)@ + esc(s@.take(i as int)),
        decreases n - i,
    {
        let c = s.get_char(i);
        if c == '\\' {
            push_char(out, '\\');
            push_char(out, '\\');
        } else if c == '"' {
            push_char(out, '\\');
            push_char(out, '"');
        } else if c == '\n' {
            push_char(out, '\\');
            push_char(out, 'n');
        } else {
            push_char(out, c);
        }
        proof {
            assert(s@.take(i + 1).drop_last() =~= s@.take(i as int));
            assert(s@.take(i + 1).last() == s@[i as int]);
            assert(out@ =~= old(out)@ + esc(s@.take(i + 1)));
        }
        i = i + 1;
    }
    proof {
        assert(s@.take(n as int) =~= s@);
    }
}

/// Append `key = "value"` with the value escaped.
fn push_kv(out: &mut String, k: &str, v: &str)
    ensures
        final(out)@ == old(out)@ + kv_line(k@, v@),
{
    out.append(k);
    out.append(" = \"");
    push_escaped(out, v);
    out.append("\"\n");
    proof {
        reveal_strlit(" = \"");
        reveal_strlit("\"\n");
        assert(" = \""@ =~= seq![' ', '=', ' ', '"']);
        assert("\"\n"@ =~= seq!['"', '\n']);
        assert(out@ =~= old(out)@ + kv_line(k@, v@));
    }
}

/// Write a configuration as its serialized document: the sorted `[vars]`
/// section, then one `[[searches]]` record per search in list order.
pub fn to_toml(cfg: &Config) -> (r: String)
    ensures
        r@ == spec_to_toml(cfg@),
{
    let mut out = String::from_str("[vars]\n");
    proof {
        reveal_strlit("[vars]\n");
        assert(out@ =~= lit_vars_header() + seq!['\n']);
    }
    let ghost head = out@;
    let n = cfg.vars.len();
    let mut i: usize = 0;
    proof {
        assert(head + Seq::<char>::empty() =~= head);
    }
    while i < n
        invariant
            i <= n,
            n == cfg@.vars.len(),
            head == lit_vars_header() + seq!['\n'],
            head + ser_vars(cfg@.vars, 0) == out@ + ser_vars(cfg@.vars, i as int),
        decreases n - i,
    {
        let (k, v) = cfg.vars.entry_at(i);
        let ghost out0 = out@;
        push_kv(&mut out, k.as_str(), v.as_str());
        proof {
            assert(out0 + (kv_line(cfg@.vars[i as int].0, cfg@.vars[i as int].1) + ser_vars(
                cfg@.vars,
                i + 1,
            )) =~= out@ + ser_vars(cfg@.vars, i + 1));
        }
        i = i + 1;
    }
    proof {
        assert(ser_vars(cfg@.vars, n as int) =~= Seq::<char>::empty());
        assert(out@ + Seq::<char>::empty() =~= out@);
        assert(out@ == head + ser_vars(cfg@.vars, 0));
    }
    let ghost mid = out@;
    let sn = cfg.searches.len();
    let mut j: usize = 0;
    proof {
        assert(mid + Seq::<char>::empty() =~= mid);
    }
    while j < sn
        invariant
            j <= sn,
            sn == cfg@.searches.len(),
            mid + ser_searches(cfg@.searches, 0) == out@ + ser_searches(cfg@.searches, j as int),
        decreases sn - j,
    {
        let s = &cfg.searches[j];
        let ghost out0 = out@;
        out.append("\n[[searches]]\n");
        proof {
            reveal_strlit("\n[[searches]]\n");
            assert("\n[[searches]]\n"@ =~= seq!['\n'] + lit_searches_header() + seq!['\n']);
        }
        push_kv(&mut out, "name", &s.name);
        push_kv(&mut out, "query", &s.query);
        proof {
            reveal_strlit("name");
            reveal_strlit("query");
            assert("name"@ =~= lit_name());
            assert("query"@ =~= lit_query());
            assert(cfg@.searches[j as int] == s@);
            assert(out@ =~= out0 + (seq!['\n'] + lit_searches_header() + seq!['\n'] + kv_line(
                lit_name(),
                s@.name,
            ) + kv_line(lit_query(), s@.query)));
            assert(out0 + (seq!['\n'] + lit_searches_header() + seq!['\n'] + kv_line(
                lit_name(),
                s@.name,
            ) + kv_line(lit_query(), s@.query) + ser_searches(cfg@.searches, j + 1)) =~= out@
                + ser_searches(cfg@.searches, j + 1));
        }
        j = j + 1;
    }
    proof {
        assert(ser_searches(cfg@.searches, sn as int) =~= Seq::<char>::empty());
        assert(out@ + Seq::<char>::empty() =~= out@);
        assert(out@ =~= spec_to_toml(cfg@));
    }
    out
}

// ---------------------------------------------------------------------
// parsing
// ---------------------------------------------------------------------
/// Why a document failed to parse.
#[verifier::ext_equal]
pub ghost enum ParseErrV {
    /// A line that is no header, comment, blank line or key/value pair.
    BadLine,
    /// A key other than `name` or `query` inside a `[[searches]]` record.
    UnknownKey,
    /// A key/value pair before any section header.
    StrayKey,
    /// A `[[searches]]` record without both a `name` and a `query`.
    IncompleteSearch,
    /// A `name` or `query` given twice in one record.
    DupKey,
}

/// Executable parse failure; its view is `ParseErrV`.
#[derive(Debug)]
pub enum ParseError {
    BadLine,
    UnknownKey,
    StrayKey,
    IncompleteSearch,
    DupKey,
}

impl View for ParseError {
    type V = ParseErrV;

    open spec fn view(&self) -> ParseErrV {
        match self {
            ParseError::BadLine => ParseErrV::BadLine,
            ParseError::UnknownKey => ParseErrV::UnknownKey,
            ParseError::StrayKey => ParseErrV::StrayKey,
            ParseError::IncompleteSearch => ParseErrV::IncompleteSearch,
            ParseError::DupKey => ParseErrV::DupKey,
        }
    }
}

/// The position of the first occurrence of `t` at or after `i`, if any.
pub open spec fn find_ch(s: Seq<char>, i: int, t: char) -> Option<int>
    decreases s.len() - i,
{
    if i < 0 || i >= s.len() {
        None
    } else if s[i] == t {
        Some(i)
    } else {
        find_ch(s, i + 1, t)
    }
}

pub proof fn lemma_find_ch_bounds(s: Seq<char>, i: int, t: char)
    ensures
        find_ch(s, i, t) matches Some(j) ==> i <= j < s.len() && s[j] == t,
    decreases s.len() - i,
{
    if !(i < 0 || i >= s.len()) && s[i] != t {
        lemma_find_ch_bounds(s, i + 1, t);
    }
}

proof fn lemma_find_ch_at(s: Seq<char>, m: int, j: int, t: char)
    requires
        0 <= m <= j < s.len(),
        s[j] == t,
        forall|k: int| m <= k < j ==> (#[trigger] s[k]) != t,
    ensures
        find_ch(s, m, t) == Some(j),
    decreases j - m,
{
    if m < j {
        lemma_find_ch_at(s, m + 1, j, t);
    }
}

proof fn lemma_find_ch_none(s: Seq<char>, m: int, t: char)
    requires
        0 <= m,
        forall|k: int| m <= k < s.len() ==> (#[trigger] s[k]) != t,
    ensures
        find_ch(s, m, t) == None::<int>,
    decreases s.len() - m,
{
    if m < s.len() {
        lemma_find_ch_none(s, m + 1, t);
    }
}

/// Where the line starting at `i` ends: the next newline, or the end.
pub open spec fn line_end(s: Seq<char>, i: int) -> int {
    match find_ch(s, i, '\n') {
        Some(j) => j,
        None => s.len() as int,
    }
}

/// The first position at or after `i` that is not whitespace.
pub open spec fn first_nonspace(s: Seq<char>, i: int) -> int
    decreases s.len() - i,
{
    if i < 0 || i >= s.len() {
        s.len() as int
    } else if is_space(s[i]) {
        first_nonspace(s, i + 1)
    } else {
        i
    }
}

proof fn lemma_first_nonspace_at(s: Seq<char>, m: int, j: int)
    requires
        0 <= m <= j <= s.len(),
        forall|k: int| m <= k < j ==> is_space(#[trigger] s[k]),
        j < s.len() ==> !is_space(s[j]),
    ensures
        first_nonspace(s, m) == if j < s.len() {
            j
        } else {
            s.len() as int
        },
    decreases j - m,
{
    if m < j {
        lemma_first_nonspace_at(s, m + 1, j);
    }
}

/// The characters allowed in a bare key.
pub open spec fn is_bare(c: char) -> bool {
    crate::strutil::is_ascii_alnum(c) || c == '_' || c == '-'
}

/// A valid bare key: nonempty, bare characters only.
pub open spec fn bare_key(k: Seq<char>) -> bool {
    k.len() > 0 && forall|i: int| 0 <= i < k.len() ==> is_bare(#[trigger] k[i])
}

/// The content of a double-quoted value from position `i` to its closing
/// quote, with escapes decoded, and the position after the quote.
pub open spec fn scan_basic(s: Seq<char>, i: int) -> Option<(Seq<char>, int)>
    decreases s.len() - i,
{
    if i < 0 || i >= s.len() {
        None
    } else if s[i] == '"' {
        Some((Seq::empty(), i + 1))
    } else if s[i] == '\\' {
        if i + 1 >= s.len() {
            None
        } else {
            match unesc(s[i + 1]) {
                None => None,
                Some(c) => match scan_basic(s, i + 2) {
                    None => None,
                    Some((rest, j)) => Some((seq![c] + rest, j)),
                },
            }
        }
    } else {
        match scan_basic(s, i + 1) {
            None => None,
            Some((rest, j)) => Some((seq![s[i]] + rest, j)),
        }
    }
}

/// The content of a single-quoted value from position `i` to its closing
/// quote, taken verbatim, and the position after the quote.
pub open spec fn scan_lit(s: Seq<char>, i: int) -> Option<(Seq<char>, int)>
    decreases s.len() - i,
{
    if i < 0 || i >= s.len() {
        None
    } else if s[i] == '\'' {
        Some((Seq::empty(), i + 1))
    } else {
        match scan_lit(s, i + 1) {
            None => None,
            Some((rest, j)) => Some((seq![s[i]] + rest, j)),
        }
    }
}

/// After a value only whitespace and an optional comment may follow.
pub open spec fn tail_ok(line: Seq<char>, j: int) -> bool {
    let r = first_nonspace(line, j);
    r >= line.len() || line[r] == '#'
}

/// The quoted value starting at position `i` of a line, if well formed.
pub open spec fn parse_value(line: Seq<char>, i: int) -> Option<Seq<char>> {
    if i < 0 || i >= line.len() {
        None
    } else if line[i] == '"' {
        match scan_basic(line, i + 1) {
            None => None,
            Some((c, j)) => if tail_ok(line, j) {
                Some(c)
            } else {
                None
            },
        }
    } else if line[i] == '\'' {
        match scan_lit(line, i + 1) {
            None => None,
            Some((c, j)) => if tail_ok(line, j) {
                Some(c)
            } else {
                None
            },
        }
    } else {
        None
    }
}

/// A `key = "value"` line, if well formed.
pub open spec fn parse_kv(line: Seq<char>) -> Option<(Seq<char>, Seq<char>)> {
    match find_ch(line, 0, '=') {
        None => None,
        Some(e) => {
            let k = trim(line.take(e));
            if !bare_key(k) {
                None
            } else {
                match parse_value(line, first_nonspace(line, e + 1)) {
                    None => None,
                    Some(v) => Some((k, v)),
                }
            }
        },
    }
}

/// Which section the parser is in, with the record under construction.
#[verifier::ext_equal]
pub ghost enum SectV {
    Outside,
    InVars,
    InSearch { name: Option<Seq<char>>, query: Option<Seq<char>> },
}

/// The parser's state between lines.
#[verifier::ext_equal]
pub ghost struct PStateV {
    pub vars: EntrySeq,
    pub searches: Seq<SearchV>,
    pub sect: SectV,
}

/// Close a pending `[[searches]]` record, if any.
pub open spec fn spec_flush(st: PStateV) -> Result<PStateV, ParseErrV> {
    match st.sect {
        SectV::InSearch { name, query } => match (name, query) {
            (Some(n), Some(q)) => Ok(
                PStateV {
                    vars: st.vars,
                    searches: st.searches.push(SearchV { name: n, query: q }),
                    sect: SectV::Outside,
                },
            ),
            _ => Err(ParseErrV::IncompleteSearch),
        },
        _ => Ok(PStateV { vars: st.vars, searches: st.searches, sect: SectV::Outside }),
    }
}

/// The parser's step for one line.
pub open spec fn spec_process_line(st: PStateV, line: Seq<char>) -> Result<PStateV, ParseErrV> {
    let t = trim(line);
    if t.len() == 0 {
        Ok(st)
    } else if t[0] == '#' {
        Ok(st)
    } else if t == lit_vars_header() {
        match spec_flush(st) {
            Ok(st2) => Ok(PStateV { vars: st2.vars, searches: st2.searches, sect: SectV::InVars }),
            Err(e) => Err(e),
        }
    } else if t == lit_searches_header() {
        match spec_flush(st) {
            Ok(st2) => Ok(
                PStateV {
                    vars: st2.vars,
                    searches: st2.searches,
                    sect: SectV::InSearch { name: None, query: None },
                },
            ),
            Err(e) => Err(e),
        }
    } else {
        match parse_kv(line) {
            None => Err(ParseErrV::BadLine),
            Some((k, v)) => match st.sect {
                SectV::Outside => Err(ParseErrV::StrayKey),
                SectV::InVars => Ok(
                    PStateV {
                        vars: sm_insert(st.vars, k, v),
                        searches: st.searches,
                        sect: SectV::InVars,
                    },
                ),
                SectV::InSearch { name, query } => if k == lit_name() {
                    if name is Some {
                        Err(ParseErrV::DupKey)
                    } else {
                        Ok(
                            PStateV {
                                vars: st.vars,
                                searches: st.searches,
                                sect: SectV::InSearch { name: Some(v), query },
                            },
                        )
                    }
                } else if k == lit_query() {
                    if query is Some {
                        Err(ParseErrV::DupKey)
                    } else {
                        Ok(
                            PStateV {
                                vars: st.vars,
                                searches: st.searches,
                                sect: SectV::InSearch { name, query: Some(v) },
                            },
                        )
                    }
                } else {
                    Err(ParseErrV::UnknownKey)
                },
            },
        }
    }
}

/// The configuration a finished parse denotes.
pub open spec fn spec_finalize(st: PStateV) -> Result<crate::config::ConfigV, ParseErrV> {
    match spec_flush(st) {
        Ok(st2) => Ok(crate::config::ConfigV { vars: st2.vars, searches: st2.searches }),
        Err(e) => Err(e),
    }
}

/// Parse the document from position `i` on, one line per step.
pub open spec fn spec_parse_at(s: Seq<char>, i: int, st: PStateV) -> Result<
    crate::config::ConfigV,
    ParseErrV,
>
    decreases s.len() - i,
    via spec_parse_at_dec
{
    if i < 0 || i >= s.len() {
        spec_finalize(st)
    } else {
        let j = line_end(s, i);
        match spec_process_line(st, s.subrange(i, j)) {
            Err(e) => Err(e),
            Ok(st2) => spec_parse_at(
                s,
                if j + 1 <= s.len() {
                    j + 1
                } else {
                    s.len() as int
                },
                st2,
            ),
        }
    }
}

#[via_fn]
proof fn spec_parse_at_dec(s: Seq<char>, i: int, st: PStateV) {
    lemma_find_ch_bounds(s, i, '\n');
}

/// The whole document parsed from an empty state.
pub open spec fn spec_parse(s: Seq<char>) -> Result<crate::config::ConfigV, ParseErrV> {
    spec_parse_at(
        s,
        0,
        PStateV { vars: Seq::empty(), searches: Seq::empty(), sect: SectV::Outside },
    )
}

// ---------------------------------------------------------------------
// the round trip: parsing what the writer emitted gives the value back
// ---------------------------------------------------------------------
/// Escaping decomposes at the front as well.
proof fn lemma_esc_front(v: Seq<char>)
    requires
        v.len() > 0,
    ensures
        esc(v) =~= esc_char(v[0]) + esc(v.drop_first()),
    decreases v.len(),
{
    if v.len() == 1 {
        assert(v.drop_last() =~= Seq::<char>::empty());
        assert(v.drop_first() =~= Seq::<char>::empty());
        assert(esc(v) =~= esc_char(v[0]) + esc(v.drop_first()));
    } else {
        lemma_esc_front(v.drop_last());
        assert(v.drop_last()[0] == v[0]);
        assert(v.drop_last().drop_first() =~= v.drop_first().drop_last());
        assert(v.drop_first().last() == v.last());
        assert(esc(v.drop_first()) =~= esc(v.drop_first().drop_last()) + esc_char(v.last()));
        assert(esc(v) =~= (esc_char(v[0]) + esc(v.drop_last().drop_first())) + esc_char(v.last()));
        assert((esc_char(v[0]) + esc(v.drop_last().drop_first())) + esc_char(v.last()) =~= esc_char(
            v[0],
        ) + (esc(v.drop_first().drop_last()) + esc_char(v.last())));
    }
}

/// Escaped text holds no raw newline.
proof fn lemma_esc_clean(v: Seq<char>)
    ensures
        forall|i: int| 0 <= i < esc(v).len() ==> (#[trigger] esc(v)[i]) != '\n',
    decreases v.len(),
{
    if v.len() > 0 {
        lemma_esc_clean(v.drop_last());
        let pre = esc(v.drop_last());
        let ec = esc_char(v.last());
        assert forall|i: int| 0 <= i < esc(v).len() implies (#[trigger] esc(v)[i]) != '\n' by {
            if i < pre.len() {
                assert(esc(v)[i] == pre[i]);
            } else {
                assert(esc(v)[i] == ec[i - pre.len()]);
            }
        }
    }
}

/// Scanning a basic value over the escaped form of `v`, closed by a double
/// quote, decodes `v` exactly and stops after the quote.
proof fn lemma_scan_esc(line: Seq<char>, i: int, v: Seq<char>)
    requires
        0 <= i,
        i + esc(v).len() + 1 <= line.len(),
        line.subrange(i, i + esc(v).len() + 1) =~= esc(v) + seq!['"'],
    ensures
        scan_basic(line, i) == Some((v, i + esc(v).len() + 1)),
    decreases v.len(),
{
    let w = esc(v).len() as int;
    let region = line.subrange(i, i + w + 1);
    assert forall|k: int| 0 <= k < w + 1 implies (#[trigger] line[i + k]) == (esc(v)
        + seq!['"'])[k] by {
        assert(region[k] == line[i + k]);
    }
    if v.len() == 0 {
        assert(line[i] == (esc(v) + seq!['"'])[0]);
        assert(line[i] == '"');
    } else {
        lemma_esc_front(v);
        let c0 = v[0];
        let e0 = esc_char(c0);
        let rest = v.drop_first();
        assert(esc(v) =~= e0 + esc(rest));
        let w2 = esc(rest).len() as int;
        let i2 = i + e0.len();
        // The tail of the region is the escaped rest, closed by the quote.
        assert(line.subrange(i2, i2 + w2 + 1) =~= esc(rest) + seq!['"']) by {
            assert forall|k: int| 0 <= k < w2 + 1 implies line.subrange(i2, i2 + w2 + 1)[k] == (esc(
                rest,
            ) + seq!['"'])[k] by {
                assert(line.subrange(i2, i2 + w2 + 1)[k] == line[i2 + k]);
                assert(line[i + (e0.len() + k)] == (esc(v) + seq!['"'])[e0.len() + k]);
                assert((esc(v) + seq!['"'])[e0.len() + k] == (esc(rest) + seq!['"'])[k]);
            }
        }
        lemma_scan_esc(line, i2, rest);
        assert(line[i + 0] == (esc(v) + seq!['"'])[0]);
        assert((esc(v) + seq!['"'])[0] == e0[0]);
        if c0 == '\\' || c0 == '"' || c0 == '\n' {
            assert(line[i] == '\\');
            assert(line[i + 1] == (esc(v) + seq!['"'])[1]);
            assert(line[i + 1] == e0[1]);
            assert(unesc(e0[1]) == Some(c0));
            assert(scan_basic(line, i) == Some((seq![c0] + rest, i + w + 1)));
        } else {
            assert(line[i] == c0);
            assert(c0 != '"' && c0 != '\\');
            assert(scan_basic(line, i) == Some((seq![c0] + rest, i + w + 1)));
        }
        assert(seq![c0] + rest =~= v);
    }
}

/// A bare character is not whitespace, not a quote and none of the
/// delimiters the line grammar gives a meaning to.
proof fn lemma_bare_char_facts(c: char)
    requires
        is_bare(c),
    ensures
        !is_space(c),
        c != '\n' && c != '=' && c != '#' && c != '[' && c != '"' && c != '\'',
{
}

/// How the parser reads one emitted `key = "value"` line.
proof fn lemma_kv_line(line: Seq<char>, k: Seq<char>, v: Seq<char>)
    requires
        bare_key(k),
        line =~= k + seq![' ', '=', ' ', '"'] + esc(v) + seq!['"'],
    ensures
        parse_kv(line) == Some((k, v)),
        trim(line) =~= line,
        trim(line).len() > 0,
        trim(line)[0] != '#',
        trim(line) != lit_vars_header(),
        trim(line) != lit_searches_header(),
        forall|p: int| 0 <= p < line.len() ==> (#[trigger] line[p]) != '\n',
{
    let e = k.len() as int + 1;
    assert(line[0] == k[0]);
    lemma_bare_char_facts(k[0]);
    assert(line[line.len() - 1] == '"');
    lemma_trim_left_at(line, 0);
    lemma_trim_right_at(line.skip(0), line.len() as int);
    assert(line.skip(0) =~= line);
    assert(trim(line) =~= line);
    assert(trim(line)[0] != '[');
    assert(lit_vars_header()[0] == '[');
    assert(lit_searches_header()[0] == '[');
    // No raw newline anywhere on the line.
    lemma_esc_clean(v);
    assert forall|p: int| 0 <= p < line.len() implies (#[trigger] line[p]) != '\n' by {
        if p < k.len() {
            lemma_bare_char_facts(k[p]);
        } else if p >= k.len() + 4 && p < k.len() + 4 + esc(v).len() {
            assert(line[p] == esc(v)[p - k.len() - 4]);
        }
    }
    // The first equals sign is just after the key.
    assert(line[e] == '=');
    assert forall|p: int| 0 <= p < e implies (#[trigger] line[p]) != '=' by {
        if p < k.len() {
            lemma_bare_char_facts(k[p]);
        }
    }
    lemma_find_ch_at(line, 0, e, '=');
    // The key is the trimmed text before it.
    let pre = line.take(e);
    assert(pre =~= k + seq![' ']);
    lemma_bare_char_facts(k[0]);
    lemma_bare_char_facts(k[k.len() - 1]);
    lemma_trim_left_at(pre, 0);
    assert(pre.skip(0) =~= pre);
    lemma_trim_right_at(pre, k.len() as int);
    assert(trim(pre) =~= k);
    // The value begins at the quote two places after the equals sign.
    assert(line[e + 1] == ' ');
    assert(line[e + 2] == '"');
    lemma_first_nonspace_at(line, e + 1, e + 2);
    assert(first_nonspace(line, e + 1) == e + 2);
    // The escaped value closes the line, so the scan ends at its end.
    assert(line.subrange(e + 3, e + 3 + esc(v).len() + 1) =~= esc(v) + seq!['"']) by {
        assert(forall|p: int|
            0 <= p < esc(v).len() + 1 ==> line.subrange(e + 3, e + 3 + esc(v).len() + 1)[p] == (
            #[trigger] line[e + 3 + p]));
    }
    lemma_scan_esc(line, e + 3, v);
    assert(e + 3 + esc(v).len() + 1 == line.len());
    assert(tail_ok(line, line.len() as int));
    assert(parse_value(line, e + 2) == Some(v));
}

/// One parsing step: with a newline-free line in front of the rest of the
/// input, the parser handles exactly that line and moves past the newline.
proof fn lemma_parse_step(s: Seq<char>, i: int, st: PStateV, line: Seq<char>, rest: Seq<char>)
    requires
        0 <= i <= s.len(),
        s.skip(i) =~= line + seq!['\n'] + rest,
        forall|p: int| 0 <= p < line.len() ==> (#[trigger] line[p]) != '\n',
    ensures
        spec_parse_at(s, i, st) == match spec_process_line(st, line) {
            Err(e) => Err::<crate::config::ConfigV, ParseErrV>(e),
            Ok(st2) => spec_parse_at(s, i + line.len() + 1, st2),
        },
        s.skip(i + line.len() + 1) =~= rest,
{
    let j = i + line.len();
    let sk = s.skip(i);
    assert(sk.len() == line.len() + 1 + rest.len());
    assert forall|p: int| 0 <= p < sk.len() implies s[i + p] == (line + seq!['\n'] + rest)[p] by {
        assert(sk[p] == s[i + p]);
    }
    assert(s[i + line.len() as int] == (line + seq!['\n'] + rest)[line.len() as int]);
    assert(s[j] == '\n');
    assert forall|p: int| i <= p < j implies (#[trigger] s[p]) != '\n' by {
        assert(s[i + (p - i)] == (line + seq!['\n'] + rest)[p - i]);
        assert(s[p] == line[p - i]);
    }
    lemma_find_ch_at(s, i, j, '\n');
    assert(line_end(s, i) == j);
    assert(s.subrange(i, j) =~= line) by {
        assert forall|p: int| 0 <= p < line.len() implies s.subrange(i, j)[p] == line[p] by {
            assert(s.subrange(i, j)[p] == s[i + p]);
            assert(s[i + p] == (line + seq!['\n'] + rest)[p]);
        }
    }
    assert(j + 1 <= s.len());
    assert(s.skip(j + 1) =~= rest) by {
        assert forall|p: int| 0 <= p < rest.len() implies s.skip(j + 1)[p] == rest[p] by {
            assert(s.skip(j + 1)[p] == s[j + 1 + p]);
            assert(s[i + (line.len() + 1 + p)] == (line + seq!['\n'] + rest)[line.len() + 1 + p]);
        }
    }
}

/// The emitted `[vars]` entries, read back in order, rebuild the sorted
/// table, and the searches follow.
proof fn lemma_parse_vars(s: Seq<char>, i: int, c: crate::config::ConfigV, m: int, st: PStateV)
    requires
        sm_wf(c.vars),
        forall|p: int| 0 <= p < c.vars.len() ==> bare_key((#[trigger] c.vars[p]).0),
        0 <= m <= c.vars.len(),
        0 <= i <= s.len(),
        s.skip(i) =~= ser_vars(c.vars, m) + ser_searches(c.searches, 0),
        st.sect == SectV::InVars,
        st.vars =~= c.vars.take(m),
        st.searches =~= Seq::<SearchV>::empty(),
    ensures
        spec_parse_at(s, i, st) == Ok::<crate::config::ConfigV, ParseErrV>(c),
    decreases c.vars.len() - m,
{
    if m == c.vars.len() {
        assert(ser_vars(c.vars, m) =~= Seq::<char>::empty());
        assert(s.skip(i) =~= ser_searches(c.searches, 0));
        assert(st.vars =~= c.vars);
        lemma_parse_searches(s, i, c, 0, st);
    } else {
        let k = c.vars[m].0;
        let v = c.vars[m].1;
        let line = k + seq![' ', '=', ' ', '"'] + esc(v) + seq!['"'];
        assert(kv_line(k, v) =~= line + seq!['\n']);
        assert(s.skip(i) =~= line + seq!['\n'] + (ser_vars(c.vars, m + 1) + ser_searches(
            c.searches,
            0,
        )));
        lemma_kv_line(line, k, v);
        lemma_parse_step(s, i, st, line, ser_vars(c.vars, m + 1) + ser_searches(c.searches, 0));
        // The key is above every key already in the table, so the insert
        // appends and rebuilds the sorted prefix.
        assert(forall|p: int|
            0 <= p < st.vars.len() ==> crate::strutil::lex_lt((#[trigger] st.vars[p]).0, k));
        crate::strmap::lemma_sm_insert_append(st.vars, k, v);
        let st2 = PStateV {
            vars: sm_insert(st.vars, k, v),
            searches: st.searches,
            sect: SectV::InVars,
        };
        assert(spec_process_line(st, line) == Ok::<PStateV, ParseErrV>(st2));
        assert(st2.vars =~= c.vars.take(m + 1)) by {
            assert(c.vars.take(m).push((k, v)) =~= c.vars.take(m + 1));
        }
        lemma_parse_vars(s, i + line.len() + 1, c, m + 1, st2);
    }
}

/// One emitted `[[searches]]` record, read back: the blank line, the
/// header line and the two field lines leave the parser holding the
/// record's fields, with the input past the record.
#[verifier::rlimit(100)]
#[verifier::spinoff_prover]
proof fn lemma_parse_one_record(
    s: Seq<char>,
    i: int,
    name: Seq<char>,
    query: Seq<char>,
    rest: Seq<char>,
    st: PStateV,
)
    requires
        0 <= i <= s.len(),
        s.skip(i) =~= seq!['\n'] + lit_searches_header() + seq!['\n'] + kv_line(lit_name(), name)
            + kv_line(lit_query(), query) + rest,
        spec_flush(st) is Ok,
    ensures
        ({
            let stf = spec_flush(st)->Ok_0;
            let st4 = PStateV {
                vars: stf.vars,
                searches: stf.searches,
                sect: SectV::InSearch { name: Some(name), query: Some(query) },
            };
            let i4 = i + 2 + lit_searches_header().len() + kv_line(lit_name(), name).len()
                + kv_line(lit_query(), query).len();
            &&& spec_parse_at(s, i, st) == spec_parse_at(s, i4, st4)
            &&& 0 <= i4 <= s.len()
            &&& s.skip(i4) =~= rest
        }),
{
    let header = lit_searches_header();
    let name_line = lit_name() + seq![' ', '=', ' ', '"'] + esc(name) + seq!['"'];
    let query_line = lit_query() + seq![' ', '=', ' ', '"'] + esc(query) + seq!['"'];
    assert(s.skip(i) =~= Seq::<char>::empty() + seq!['\n'] + (header + seq!['\n'] + (name_line
        + seq!['\n'] + (query_line + seq!['\n'] + rest)))) by {
        assert(kv_line(lit_name(), name) =~= name_line + seq!['\n']);
        assert(kv_line(lit_query(), query) =~= query_line + seq!['\n']);
    }
    // The blank line keeps the state.
    lemma_parse_step(
        s,
        i,
        st,
        Seq::<char>::empty(),
        header + seq!['\n'] + (name_line + seq!['\n'] + (query_line + seq!['\n'] + rest)),
    );
    assert(trim(Seq::<char>::empty()).len() == 0);
    assert(spec_process_line(st, Seq::<char>::empty()) == Ok::<PStateV, ParseErrV>(st));
    let i1 = i + 1;
    // The header line closes the previous record and opens a new one.
    assert(forall|p: int| 0 <= p < header.len() ==> (#[trigger] header[p]) != '\n');
    lemma_parse_step(s, i1, st, header, name_line + seq!['\n'] + (query_line + seq!['\n'] + rest));
    assert(header[0] != ' ' && header[0] != '\t' && header[header.len() - 1] != ' ' && header[
        header.len() - 1
    ] != '\t');
    lemma_trim_left_at(header, 0);
    assert(header.skip(0) =~= header);
    lemma_trim_right_at(header, header.len() as int);
    assert(trim(header) =~= header);
    assert(trim(header) != lit_vars_header());
    assert(trim(header)[0] != '#');
    let stf = spec_flush(st)->Ok_0;
    let st2 = PStateV {
        vars: stf.vars,
        searches: stf.searches,
        sect: SectV::InSearch { name: None, query: None },
    };
    assert(spec_process_line(st, header) == Ok::<PStateV, ParseErrV>(st2));
    let i2 = i1 + header.len() + 1;
    // The name line.
    assert(bare_key(lit_name()));
    lemma_kv_line(name_line, lit_name(), name);
    lemma_parse_step(s, i2, st2, name_line, query_line + seq!['\n'] + rest);
    let st3 = PStateV {
        vars: st2.vars,
        searches: st2.searches,
        sect: SectV::InSearch { name: Some(name), query: None },
    };
    assert(spec_process_line(st2, name_line) == Ok::<PStateV, ParseErrV>(st3));
    let i3 = i2 + name_line.len() + 1;
    // The query line.
    assert(bare_key(lit_query()));
    lemma_kv_line(query_line, lit_query(), query);
    lemma_parse_step(s, i3, st3, query_line, rest);
    assert(lit_query() != lit_name());
    let st4 = PStateV {
        vars: st3.vars,
        searches: st3.searches,
        sect: SectV::InSearch { name: Some(name), query: Some(query) },
    };
    assert(spec_process_line(st3, query_line) == Ok::<PStateV, ParseErrV>(st4));
}

/// The emitted `[[searches]]` records, read back in order, rebuild the
/// search list and close the document.
proof fn lemma_parse_searches(s: Seq<char>, i: int, c: crate::config::ConfigV, m: int, st: PStateV)
    requires
        0 <= m <= c.searches.len(),
        0 <= i <= s.len(),
        s.skip(i) =~= ser_searches(c.searches, m),
        spec_flush(st) is Ok,
        (spec_flush(st)->Ok_0).vars =~= c.vars,
        (spec_flush(st)->Ok_0).searches =~= c.searches.take(m),
    ensures
        spec_parse_at(s, i, st) == Ok::<crate::config::ConfigV, ParseErrV>(c),
    decreases c.searches.len() - m,
{
    if m == c.searches.len() {
        assert(ser_searches(c.searches, m) =~= Seq::<char>::empty());
        assert(i == s.len());
        let stf = spec_flush(st)->Ok_0;
        assert(spec_finalize(st) == Ok::<crate::config::ConfigV, ParseErrV>(
            crate::config::ConfigV { vars: stf.vars, searches: stf.searches },
        ));
        assert(c.searches.take(m) =~= c.searches);
        assert((crate::config::ConfigV { vars: stf.vars, searches: stf.searches }) =~= c);
    } else {
        let name = c.searches[m].name;
        let query = c.searches[m].query;
        let tail = ser_searches(c.searches, m + 1);
        assert(s.skip(i) =~= seq!['\n'] + lit_searches_header() + seq!['\n'] + kv_line(
            lit_name(),
            name,
        ) + kv_line(lit_query(), query) + tail);
        lemma_parse_one_record(s, i, name, query, tail, st);
        let stf = spec_flush(st)->Ok_0;
        let st4 = PStateV {
            vars: stf.vars,
            searches: stf.searches,
            sect: SectV::InSearch { name: Some(name), query: Some(query) },
        };
        let i4 = i + 2 + lit_searches_header().len() + kv_line(lit_name(), name).len() + kv_line(
            lit_query(),
            query,
        ).len();
        // The finished record flushes to the next prefix of the list.
        assert((spec_flush(st4)->Ok_0).searches =~= c.searches.take(m + 1)) by {
            assert((SearchV { name, query }) =~= c.searches[m]);
            assert(c.searches.take(m).push(c.searches[m]) =~= c.searches.take(m + 1));
        }
        lemma_parse_searches(s, i4, c, m + 1, st4);
    }
}

/// Round trip: parsing the emitted document of a well-formed configuration
/// with bare variable names yields the configuration itself, field for
/// field; the writer already keeps variable keys in ascending order.
pub proof fn lemma_round_trip(c: crate::config::ConfigV)
    requires
        sm_wf(c.vars),
        forall|p: int| 0 <= p < c.vars.len() ==> bare_key((#[trigger] c.vars[p]).0),
    ensures
        spec_parse(spec_to_toml(c)) == Ok::<crate::config::ConfigV, ParseErrV>(c),
{
    let s = spec_to_toml(c);
    let st0 = PStateV { vars: Seq::empty(), searches: Seq::empty(), sect: SectV::Outside };
    let header = lit_vars_header();
    assert(s.skip(0) =~= header + seq!['\n'] + (ser_vars(c.vars, 0) + ser_searches(
        c.searches,
        0,
    )));
    assert(forall|p: int| 0 <= p < header.len() ==> (#[trigger] header[p]) != '\n');
    lemma_parse_step(s, 0, st0, header, ser_vars(c.vars, 0) + ser_searches(c.searches, 0));
    lemma_trim_left_at(header, 0);
    assert(header.skip(0) =~= header);
    lemma_trim_right_at(header, header.len() as int);
    assert(trim(header) =~= header);
    assert(trim(header)[0] != '#');
    let st1 = PStateV { vars: Seq::empty(), searches: Seq::empty(), sect: SectV::InVars };
    assert(spec_process_line(st0, header) == Ok::<PStateV, ParseErrV>(st1));
    assert(st1.vars =~= c.vars.take(0));
    lemma_parse_vars(s, header.len() as int + 1, c, 0, st1);
}

enum Sect {
    Outside,
    Vars,
    Search,
}

struct PState {
    vars: StrMap,
    searches: Vec<Search>,
    sect: Sect,
    cur_name: Option<String>,
    cur_query: Option<String>,
}

impl View for PState {
    type V = PStateV;

    closed spec fn view(&self) -> PStateV {
        PStateV {
            vars: self.vars@,
            searches: self.searches@.map_values(|s: Search| s@),
            sect: match self.sect {
                Sect::Outside => SectV::Outside,
                Sect::Vars => SectV::InVars,
                Sect::Search => SectV::InSearch {
                    name: match &self.cur_name {
                        Some(s) => Some(s@),
                        None => None,
                    },
                    query: match &self.cur_query {
                        Some(s) => Some(s@),
                        None => None,
                    },
                },
            },
        }
    }
}

impl PState {
    spec fn wf(&self) -> bool {
        self.vars.wf()
    }
}

fn flush(st: &mut PState) -> (r: Result<(), ParseError>)
    requires
        old(st).wf(),
    ensures
        match r {
            Ok(_) => spec_flush(old(st)@) == Ok::<PStateV, ParseErrV>(final(st)@) && final(st).wf(),
            Err(e) => spec_flush(old(st)@) == Err::<PStateV, ParseErrV>(e@),
        },
{
    match st.sect {
        Sect::Search => {
            match (&st.cur_name, &st.cur_query) {
                (Some(n), Some(q)) => {
                    let s = Search::new(n.clone(), q.clone());
                    let ghost ss0 = st.searches@.map_values(|x: Search| x@);
                    st.searches.push(s);
                    proof {
                        assert(st.searches@.map_values(|x: Search| x@) =~= ss0.push(
                            st.searches@.last()@,
                        ));
                    }
                },
                _ => {
                    return Err(ParseError::IncompleteSearch);
                },
            }
        },
        _ => {},
    }
    st.sect = Sect::Outside;
    st.cur_name = None;
    st.cur_query = None;
    Ok(())
}

/// Scan the trimmed region `[a, b)` of a line.
fn trim_bounds(line: &str) -> (r: (usize, usize))
    ensures
        r.0 <= r.1 <= line@.len(),
        trim(line@) =~= line@.subrange(r.0 as int, r.1 as int),
{
    let n = line.unicode_len();
    let mut a: usize = 0;
    while a < n && exec_is_space(line.get_char(a))
        invariant
            a <= n,
            n == line@.len(),
            forall|k: int| 0 <= k < a ==> is_space(#[trigger] line@[k]),
        decreases n - a,
    {
        a = a + 1;
    }
    let mut b: usize = n;
    while b > a && exec_is_space(line.get_char(b - 1))
        invariant
            a <= b <= n,
            n == line@.len(),
            forall|k: int| b <= k < n ==> is_space(#[trigger] line@[k]),
        decreases b - a,
    {
        b = b - 1;
    }
    proof {
        lemma_trim_left_at(line@, a as int);
        let tl = line@.skip(a as int);
        assert(forall|k: int| 0 <= k < tl.len() ==> (#[trigger] tl[k]) == line@[k + a]);
        if b == a && a < n {
            // b stopped at a, so either the whole tail is spaces or
            // line[a] itself is a space; the left scan rules the latter out.
            assert(!is_space(line@[a as int]));
            assert(forall|k: int| a <= k < n ==> is_space(#[trigger] line@[k]) || k == a);
        }
        lemma_trim_right_at(tl, b - a);
        assert(trim(line@) =~= tl.take(b - a));
        assert(tl.take(b - a) =~= line@.subrange(a as int, b as int));
    }
    (a, b)
}

/// Collect the characters `[a, b)` of a line into an owned string.
fn collect_range(line: &str, a: usize, b: usize) -> (r: String)
    requires
        a <= b <= line@.len(),
    ensures
        r@ == line@.subrange(a as int, b as int),
{
    let mut out = String::new();
    let mut p: usize = a;
    proof {
        assert(out@ =~= line@.subrange(a as int, a as int));
    }
    while p < b
        invariant
            a <= p <= b <= line@.len(),
            out@ =~= line@.subrange(a as int, p as int),
        decreases b - p,
    {
        let c = line.get_char(p);
        push_char(&mut out, c);
        proof {
            assert(out@ =~= line@.subrange(a as int, p + 1));
        }
        p = p + 1;
    }
    proof {
        assert(out@ =~= line@.subrange(a as int, b as int));
    }
    out
}

/// Scan a quoted value at position `q0` of a line (the quote itself), with
/// the given closing quote and escape handling; returns the decoded
/// content and checks the tail.
fn scan_value(line: &str, q0: usize, basic: bool) -> (r: Option<String>)
    requires
        q0 < line@.len(),
        basic ==> line@[q0 as int] == '"',
        !basic ==> line@[q0 as int] == '\'',
    ensures
        match r {
            Some(v) => parse_value(line@, q0 as int) == Some(v@),
            None => parse_value(line@, q0 as int) is None,
        },
{
    let n = line.unicode_len();
    let mut out = String::new();
    let mut i: usize = q0 + 1;
    let ghost start = q0 + 1;
    proof {
        if basic {
            match scan_basic(line@, start as int) {
                Some((rest, _)) => {
                    assert(out@ + rest =~= rest);
                },
                None => {},
            }
        } else {
            match scan_lit(line@, start as int) {
                Some((rest, _)) => {
                    assert(out@ + rest =~= rest);
                },
                None => {},
            }
        }
    }
    let close: usize;
    loop
        invariant
            start == q0 + 1,
            start <= i,
            q0 < n,
            n == line@.len(),
            basic ==> line@[q0 as int] == '"',
            !basic ==> line@[q0 as int] == '\'',
            basic ==> (match scan_basic(line@, start as int) {
                Some((c, j)) => scan_basic(line@, i as int) matches Some((c2, j2)) && c == out@ + c2
                    && j == j2,
                None => scan_basic(line@, i as int) is None,
            }),
            !basic ==> (match scan_lit(line@, start as int) {
                Some((c, j)) => scan_lit(line@, i as int) matches Some((c2, j2)) && c == out@ + c2
                    && j == j2,
                None => scan_lit(line@, i as int) is None,
            }),
        ensures
            i < n,
            basic ==> scan_basic(line@, start as int) == Some::<(Seq<char>, int)>((out@, i + 1)),
            !basic ==> scan_lit(line@, start as int) == Some::<(Seq<char>, int)>((out@, i + 1)),
        decreases n - i,
    {
        if i >= n {
            proof {
                assert(parse_value(line@, q0 as int) is None);
            }
            return None;
        }
        let c = line.get_char(i);
        if basic && c == '"' {
            proof {
                assert(out@ + Seq::<char>::empty() =~= out@);
            }
            break;
        }
        if !basic && c == '\'' {
            proof {
                assert(out@ + Seq::<char>::empty() =~= out@);
            }
            break;
        }
        if basic && c == '\\' {
            if i + 1 >= n {
                return None;
            }
            let e = line.get_char(i + 1);
            let decoded: char;
            if e == '\\' {
                decoded = '\\';
            } else if e == '"' {
                decoded = '"';
            } else if e == 'n' {
                decoded = '\n';
            } else {
                return None;
            }
            let ghost out0 = out@;
            push_char(&mut out, decoded);
            proof {
                match scan_basic(line@, i + 2) {
                    Some((rest, _)) => {
                        assert(out0 + (seq![decoded] + rest) =~= out@ + rest);
                    },
                    None => {},
                }
            }
            i = i + 2;
        } else {
            let ghost out0 = out@;
            push_char(&mut out, c);
            proof {
                if basic {
                    match scan_basic(line@, i + 1) {
                        Some((rest, _)) => {
                            assert(out0 + (seq![c] + rest) =~= out@ + rest);
                        },
                        None => {},
                    }
                } else {
                    match scan_lit(line@, i + 1) {
                        Some((rest, _)) => {
                            assert(out0 + (seq![c] + rest) =~= out@ + rest);
                        },
                        None => {},
                    }
                }
            }
            i = i + 1;
        }
    }
    close = i + 1;
    // Only whitespace and an optional comment may follow the value.
    let mut t: usize = close;
    while t < n && exec_is_space(line.get_char(t))
        invariant
            close <= t <= n,
            n == line@.len(),
            forall|k: int| close <= k < t ==> is_space(#[trigger] line@[k]),
        decreases n - t,
    {
        t = t + 1;
    }
    proof {
        lemma_first_nonspace_at(line@, close as int, t as int);
    }
    if t < n {
        let c = line.get_char(t);
        if !(c == '#') {
            return None;
        }
    }
    Some(out)
}

fn process_line(st: &mut PState, line: &str) -> (r: Result<(), ParseError>)
    requires
        old(st).wf(),
    ensures
        match r {
            Ok(_) => spec_process_line(old(st)@, line@) == Ok::<PStateV, ParseErrV>(final(st)@)
                && final(st).wf(),
            Err(e) => spec_process_line(old(st)@, line@) == Err::<PStateV, ParseErrV>(e@),
        },
{
    let n = line.unicode_len();
    let (a, b) = trim_bounds(line);
    if b == a {
        return Ok(());
    }
    let c0 = line.get_char(a);
    proof {
        assert(trim(line@)[0] == line@[a as int]);
    }
    if c0 == '#' {
        return Ok(());
    }
    let t = collect_range(line, a, b);
    proof {
        assert(t@ =~= trim(line@));
    }
    let vars_header = String::from_str("[vars]");
    let searches_header = String::from_str("[[searches]]");
    proof {
        reveal_strlit("[vars]");
        reveal_strlit("[[searches]]");
        assert(vars_header@ =~= lit_vars_header());
        assert(searches_header@ =~= lit_searches_header());
    }
    if t == vars_header {
        match flush(st) {
            Err(e) => {
                return Err(e);
            },
            Ok(_) => {},
        }
        st.sect = Sect::Vars;
        return Ok(());
    }
    if t == searches_header {
        match flush(st) {
            Err(e) => {
                return Err(e);
            },
            Ok(_) => {},
        }
        st.sect = Sect::Search;
        st.cur_name = None;
        st.cur_query = None;
        return Ok(());
    }
    // A key/value line. Find the equals sign.
    let mut e: usize = 0;
    let mut found = false;
    loop
        invariant_except_break
            !found,
        invariant
            e <= n,
            n == line@.len(),
            forall|k: int| 0 <= k < e ==> (#[trigger] line@[k]) != '=',
        ensures
            e <= n,
            forall|k: int| 0 <= k < e ==> (#[trigger] line@[k]) != '=',
            found ==> e < n && line@[e as int] == '=',
            !found ==> e == n,
        decreases n - e,
    {
        if e >= n {
            break;
        }
        if line.get_char(e) == '=' {
            found = true;
            break;
        }
        e = e + 1;
    }
    if !found {
        proof {
            lemma_find_ch_none(line@, 0, '=');
        }
        return Err(ParseError::BadLine);
    }
    proof {
        lemma_find_ch_at(line@, 0, e as int, '=');
    }
    // The key: the trimmed text before the equals sign.
    let mut ka: usize = 0;
    while ka < e && exec_is_space(line.get_char(ka))
        invariant
            ka <= e,
            e < n,
            n == line@.len(),
            forall|k: int| 0 <= k < ka ==> is_space(#[trigger] line@[k]),
        decreases e - ka,
    {
        ka = ka + 1;
    }
    let mut kb: usize = e;
    while kb > ka && exec_is_space(line.get_char(kb - 1))
        invariant
            ka <= kb <= e,
            e < n,
            n == line@.len(),
            forall|k: int| kb <= k < e ==> is_space(#[trigger] line@[k]),
        decreases kb - ka,
    {
        kb = kb - 1;
    }
    proof {
        let pre = line@.take(e as int);
        assert(forall|k: int| 0 <= k < pre.len() ==> (#[trigger] pre[k]) == line@[k]);
        lemma_trim_left_at(pre, ka as int);
        let tl = pre.skip(ka as int);
        assert(forall|k: int| 0 <= k < tl.len() ==> (#[trigger] tl[k]) == line@[k + ka]);
        if kb == ka && ka < e {
            assert(!is_space(line@[ka as int]));
        }
        lemma_trim_right_at(tl, kb - ka);
        assert(trim(pre) =~= tl.take(kb - ka));
        assert(tl.take(kb - ka) =~= line@.subrange(ka as int, kb as int));
    }
    if kb == ka {
        proof {
            assert(!bare_key(trim(line@.take(e as int))));
        }
        return Err(ParseError::BadLine);
    }
    let key = collect_range(line, ka, kb);
    proof {
        assert(key@ =~= trim(line@.take(e as int)));
    }
    // Every key character must be bare.
    let klen = kb - ka;
    let mut kp: usize = 0;
    let mut all_bare = true;
    while kp < klen
        invariant
            kp <= klen,
            klen == key@.len(),
            all_bare <==> (forall|k: int| 0 <= k < kp ==> is_bare(#[trigger] key@[k])),
        decreases klen - kp,
    {
        let c = key.as_str().get_char(kp);
        if !(crate::strutil::exec_is_ascii_alnum(c) || c == '_' || c == '-') {
            all_bare = false;
        }
        kp = kp + 1;
    }
    if !all_bare {
        proof {
            assert(!bare_key(key@));
        }
        return Err(ParseError::BadLine);
    }
    proof {
        assert(bare_key(key@));
    }
    // The value: skip whitespace after the equals sign.
    let mut vs: usize = e + 1;
    while vs < n && exec_is_space(line.get_char(vs))
        invariant
            e + 1 <= vs <= n,
            n == line@.len(),
            forall|k: int| e + 1 <= k < vs ==> is_space(#[trigger] line@[k]),
        decreases n - vs,
    {
        vs = vs + 1;
    }
    proof {
        lemma_first_nonspace_at(line@, e + 1, vs as int);
    }
    if vs >= n {
        return Err(ParseError::BadLine);
    }
    let cq = line.get_char(vs);
    let value = if cq == '"' {
        match scan_value(line, vs, true) {
            None => {
                return Err(ParseError::BadLine);
            },
            Some(v) => v,
        }
    } else if cq == '\'' {
        match scan_value(line, vs, false) {
            None => {
                return Err(ParseError::BadLine);
            },
            Some(v) => v,
        }
    } else {
        return Err(ParseError::BadLine);
    };
    proof {
        assert(parse_kv(line@) == Some((key@, value@)));
    }
    // Apply the pair to the current section.
    match st.sect {
        Sect::Outside => Err(ParseError::StrayKey),
        Sect::Vars => {
            st.vars.insert(key, value);
            Ok(())
        },
        Sect::Search => {
            let name_key = String::from_str("name");
            let query_key = String::from_str("query");
            proof {
                reveal_strlit("name");
                reveal_strlit("query");
                assert(name_key@ =~= lit_name());
                assert(query_key@ =~= lit_query());
            }
            if key == name_key {
                match &st.cur_name {
                    Some(_) => Err(ParseError::DupKey),
                    None => {
                        st.cur_name = Some(value);
                        Ok(())
                    },
                }
            } else if key == query_key {
                match &st.cur_query {
                    Some(_) => Err(ParseError::DupKey),
                    None => {
                        st.cur_query = Some(value);
                        Ok(())
                    },
                }
            } else {
                Err(ParseError::UnknownKey)
            }
        },
    }
}

/// Parse a serialized configuration document. Accepts blank lines,
/// `#` comments, a `[vars]` section of key/value pairs, and `[[searches]]`
/// records holding exactly a `name` and a `query`; values are double- or
/// single-quoted.
pub fn parse_config(s: &str) -> (r: Result<Config, ParseError>)
    ensures
        match r {
            Ok(c) => spec_parse(s@) == Ok::<crate::config::ConfigV, ParseErrV>(c@) && c.wf(),
            Err(e) => spec_parse(s@) == Err::<crate::config::ConfigV, ParseErrV>(e@),
        },
{
    let n = s.unicode_len();
    let mut st = PState {
        vars: StrMap::new(),
        searches: Vec::new(),
        sect: Sect::Outside,
        cur_name: None,
        cur_query: None,
    };
    proof {
        assert(st@.searches =~= Seq::<SearchV>::empty());
        assert(st@ =~= (PStateV {
            vars: Seq::empty(),
            searches: Seq::empty(),
            sect: SectV::Outside,
        }));
    }
    let mut i: usize = 0;
    loop
        invariant
            i <= n,
            n == s@.len(),
            st.wf(),
            spec_parse(s@) == spec_parse_at(s@, i as int, st@),
        ensures
            i >= n,
            n == s@.len(),
            st.wf(),
            spec_parse(s@) == spec_parse_at(s@, i as int, st@),
        decreases n - i,
    {
        if i >= n {
            break;
        }
        // Find the end of the current line.
        let mut j: usize = i;
        let mut found = false;
        loop
            invariant_except_break
                !found,
            invariant
                i <= j <= n,
                n == s@.len(),
                forall|k: int| i <= k < j ==> (#[trigger] s@[k]) != '\n',
            ensures
                i <= j <= n,
                forall|k: int| i <= k < j ==> (#[trigger] s@[k]) != '\n',
                found ==> j < n && s@[j as int] == '\n',
                !found ==> j == n,
            decreases n - j,
        {
            if j >= n {
                break;
            }
            if s.get_char(j) == '\n' {
                found = true;
                break;
            }
            j = j + 1;
        }
        proof {
            if found {
                lemma_find_ch_at(s@, i as int, j as int, '\n');
            } else {
                lemma_find_ch_none(s@, i as int, '\n');
            }
            assert(line_end(s@, i as int) == j as int);
        }
        let line = s.substring_char(i, j);
        match process_line(&mut st, line) {
            Err(e) => {
                return Err(e);
            },
            Ok(_) => {},
        }
        if found {
            i = j + 1;
        } else {
            i = n;
        }
    }
    // End of input: close any pending record.
    match flush(&mut st) {
        Err(e) => {
            return Err(e);
        },
        Ok(_) => {},
    }
    let c = Config { vars: st.vars, searches: st.searches };
    proof {
        assert(c@ =~= spec_parse(s@)->Ok_0);
    }
    Ok(c)
}

} // verus!
