//! The computational side of pulling remote state: deriving variable names
//! from category labels, printing numeric identifiers, and rewriting
//! literal `tag_id:<number>` occurrences in fetched queries back into
//! symbolic `tag_id:{{ name }}` placeholders.

use vstd::prelude::*;
use vstd::string::*;

use crate::config::{Config, Search};
use crate::strmap::{sm_insert, EntrySeq, StrMap};
use crate::strutil::{
    exec_is_ascii_alnum, exec_lower_char, is_ascii_alnum, lower_char, pop_char, push_char,
};

verus! {

/// The label with every ASCII alphanumeric character lowercased and every
/// other character replaced by an underscore.
pub open spec fn mapped_label(s: Seq<char>) -> Seq<char> {
    s.map_values(
        |c: char|
            if is_ascii_alnum(c) {
                lower_char(c)
            } else {
                '_'
            },
    )
}

/// The fixed suffix marking a derived variable's origin.
pub open spec fn suffix_tag_id() -> Seq<char> {
    seq!['_', 't', 'a', 'g', '_', 'i', 'd']
}

/// The variable name derived from a category label: the mapped label with
/// one trailing underscore stripped, then the fixed suffix. Distinct
/// labels may collide; that is an accepted limitation.
pub open spec fn spec_tag_var_name(s: Seq<char>) -> Seq<char> {
    let m = mapped_label(s);
    if m.len() > 0 && m.last() == '_' {
        m.drop_last() + suffix_tag_id()
    } else {
        m + suffix_tag_id()
    }
}

/// Derive a template variable name from a free-text category label. Total
/// and deterministic: the result is a function of the label alone.
pub fn tag_var_name(name: &str) -> (r: String)
    ensures
        r@ == spec_tag_var_name(name@),
{
    let n = name.unicode_len();
    let mut out = String::new();
    let mut i: usize = 0;
    proof {
        assert(out@ =~= mapped_label(name@).take(0));
    }
    while i < n
        invariant
            i <= n,
            n == name@.len(),
            out@ =~= mapped_label(name@).take(i as int),
        decreases n - i,
    {
        let c = name.get_char(i);
        if exec_is_ascii_alnum(c) {
            push_char(&mut out, exec_lower_char(c));
        } else {
            push_char(&mut out, '_');
        }
        proof {
            assert(out@ =~= mapped_label(name@).take(i + 1));
        }
        i = i + 1;
    }
    proof {
        assert(mapped_label(name@).take(n as int) =~= mapped_label(name@));
    }
    let outlen = out.as_str().unicode_len();
    if outlen > 0 {
        let last = out.as_str().get_char(outlen - 1);
        if last == '_' {
            pop_char(&mut out);
        }
    }
    out.append("_tag_id");
    proof {
        reveal_strlit("_tag_id");
        assert("_tag_id"@ =~= suffix_tag_id());
    }
    out
}

/// The character for one decimal digit.
pub open spec fn dec_digit(d: int) -> char {
    if d == 0 {
        '0'
    } else if d == 1 {
        '1'
    } else if d == 2 {
        '2'
    } else if d == 3 {
        '3'
    } else if d == 4 {
        '4'
    } else if d == 5 {
        '5'
    } else if d == 6 {
        '6'
    } else if d == 7 {
        '7'
    } else if d == 8 {
        '8'
    } else {
        '9'
    }
}

/// The decimal digits of a number, most significant first.
pub open spec fn dec_digits(n: int) -> Seq<char>
    decreases n,
{
    if n < 10 {
        seq![dec_digit(n)]
    } else {
        dec_digits(n / 10).push(dec_digit(n % 10))
    }
}

fn exec_dec_digit(d: u64) -> (c: char)
    requires
        d < 10,
    ensures
        c == dec_digit(d as int),
{
    if d == 0 {
        '0'
    } else if d == 1 {
        '1'
    } else if d == 2 {
        '2'
    } else if d == 3 {
        '3'
    } else if d == 4 {
        '4'
    } else if d == 5 {
        '5'
    } else if d == 6 {
        '6'
    } else if d == 7 {
        '7'
    } else if d == 8 {
        '8'
    } else {
        '9'
    }
}

/// Print a numeric identifier in decimal.
pub fn u64_to_dec(n: u64) -> (r: String)
    ensures
        r@ == dec_digits(n as int),
    decreases n,
{
    if n < 10 {
        let mut s = String::new();
        push_char(&mut s, exec_dec_digit(n));
        proof {
            assert(s@ =~= dec_digits(n as int));
        }
        s
    } else {
        let mut s = u64_to_dec(n / 10);
        push_char(&mut s, exec_dec_digit(n % 10));
        proof {
            assert(s@ =~= dec_digits(n as int));
        }
        s
    }
}

/// The text from position `i` on with every occurrence of `needle`
/// replaced by `repl`, scanning left to right without rescanning
/// replacements.
pub open spec fn spec_replace_from(
    hay: Seq<char>,
    i: int,
    needle: Seq<char>,
    repl: Seq<char>,
) -> Seq<char>
    decreases hay.len() - i,
    when needle.len() > 0
{
    if i < 0 || i >= hay.len() {
        Seq::empty()
    } else if i + needle.len() <= hay.len() && hay.subrange(i, i + needle.len()) == needle {
        repl + spec_replace_from(hay, i + needle.len(), needle, repl)
    } else {
        seq![hay[i]] + spec_replace_from(hay, i + 1, needle, repl)
    }
}

/// The text with every occurrence of `needle` replaced by `repl`.
pub open spec fn spec_replace_all(hay: Seq<char>, needle: Seq<char>, repl: Seq<char>) -> Seq<
    char,
> {
    spec_replace_from(hay, 0, needle, repl)
}

/// Replace every occurrence of `needle` in `hay` by `repl`, left to right,
/// never rescanning replaced text.
pub fn replace_all(hay: &str, needle: &str, repl: &str) -> (r: String)
    requires
        needle@.len() > 0,
    ensures
        r@ == spec_replace_all(hay@, needle@, repl@),
{
    let n = hay.unicode_len();
    let nl = needle.unicode_len();
    let mut out = String::new();
    let mut i: usize = 0;
    proof {
        match spec_replace_from(hay@, 0, needle@, repl@) {
            r => {
                assert(out@ + r =~= r);
            },
        }
    }
    loop
        invariant
            i <= n,
            n == hay@.len(),
            nl == needle@.len(),
            nl > 0,
            spec_replace_all(hay@, needle@, repl@) == out@ + spec_replace_from(
                hay@,
                i as int,
                needle@,
                repl@,
            ),
        decreases n - i,
    {
        if i >= n {
            proof {
                assert(out@ + Seq::<char>::empty() =~= out@);
            }
            return out;
        }
        let mut eq = nl <= n - i;
        if eq {
            let mut m: usize = 0;
            while m < nl
                invariant
                    m <= nl,
                    i + nl <= n,
                    n == hay@.len(),
                    nl == needle@.len(),
                    eq <==> (forall|k: int| 0 <= k < m ==> hay@[i + k] == #[trigger] needle@[k]),
                decreases nl - m,
            {
                if !(hay.get_char(i + m) == needle.get_char(m)) {
                    eq = false;
                }
                m = m + 1;
            }
        }
        let ghost out0 = out@;
        if eq {
            proof {
                assert(hay@.subrange(i as int, i + nl) =~= needle@);
            }
            out.append(repl);
            proof {
                assert(out0 + (repl@ + spec_replace_from(hay@, i + nl, needle@, repl@)) =~= out@
                    + spec_replace_from(hay@, i + nl, needle@, repl@));
            }
            i = i + nl;
        } else {
            proof {
                if i + nl <= n {
                    let ghost k0 = choose|k: int|
                        0 <= k < nl && hay@[i + k] != #[trigger] needle@[k];
                    assert(hay@.subrange(i as int, i + nl)[k0] != needle@[k0]);
                    assert(hay@.subrange(i as int, i + nl) != needle@);
                }
            }
            let c = hay.get_char(i);
            push_char(&mut out, c);
            proof {
                assert(out0 + (seq![c] + spec_replace_from(hay@, i + 1, needle@, repl@)) =~= out@
                    + spec_replace_from(hay@, i + 1, needle@, repl@));
            }
            i = i + 1;
        }
    }
}

/// `tag_id:` as characters.
pub open spec fn tag_prefix() -> Seq<char> {
    seq!['t', 'a', 'g', '_', 'i', 'd', ':']
}

/// `{{ ` as characters.
pub open spec fn placeholder_open() -> Seq<char> {
    seq!['{', '{', ' ']
}

/// ` }}` as characters.
pub open spec fn placeholder_close() -> Seq<char> {
    seq![' ', '}', '}']
}

/// A fetched query after rewriting, for the bindings from position `i` on
/// in ascending key order: each literal `tag_id:<value>` becomes the
/// symbolic `tag_id:{{ <key> }}`.
pub open spec fn spec_rewrite_from(q: Seq<char>, vars: EntrySeq, i: int) -> Seq<char>
    decreases vars.len() - i,
{
    if i < 0 || i >= vars.len() {
        q
    } else {
        spec_rewrite_from(
            spec_replace_all(
                q,
                tag_prefix() + vars[i].1,
                tag_prefix() + placeholder_open() + vars[i].0 + placeholder_close(),
            ),
            vars,
            i + 1,
        )
    }
}

/// A fetched query after reverse templating against a binding table. This
/// is an exact textual find-and-replace: coincidental literal matches in
/// unrelated numeric contexts are not guarded against.
pub open spec fn spec_rewrite(q: Seq<char>, vars: EntrySeq) -> Seq<char> {
    spec_rewrite_from(q, vars, 0)
}

/// Rewrite literal `tag_id:<number>` occurrences in a fetched query into
/// `tag_id:{{ name }}` placeholders, one binding at a time in ascending
/// key order.
pub fn rewrite_query(q: &String, vars: &StrMap) -> (r: String)
    ensures
        r@ == spec_rewrite(q@, vars@),
{
    let mut out = q.clone();
    let n = vars.len();
    let mut i: usize = 0;
    while i < n
        invariant
            i <= n,
            n == vars@.len(),
            spec_rewrite(q@, vars@) == spec_rewrite_from(out@, vars@, i as int),
        decreases n - i,
    {
        let (k, v) = vars.entry_at(i);
        let mut needle = String::from_str("tag_id:");
        needle.append(v.as_str());
        let mut repl = String::from_str("tag_id:{{ ");
        repl.append(k.as_str());
        repl.append(" }}");
        proof {
            reveal_strlit("tag_id:");
            reveal_strlit("tag_id:{{ ");
            reveal_strlit(" }}");
            assert(needle@ =~= tag_prefix() + vars@[i as int].1);
            assert(repl@ =~= tag_prefix() + placeholder_open() + vars@[i as int].0
                + placeholder_close());
        }
        out = replace_all(out.as_str(), needle.as_str(), repl.as_str());
        i = i + 1;
    }
    out
}

/// A remote category tag: a label and its numeric identifier.
#[derive(Debug)]
pub struct Tag {
    pub id: u64,
    pub name: String,
}

/// Abstract value of a `Tag`.
#[verifier::ext_equal]
pub ghost struct TagV {
    pub id: int,
    pub name: Seq<char>,
}

impl View for Tag {
    type V = TagV;

    open spec fn view(&self) -> TagV {
        TagV { id: self.id as int, name: self.name@ }
    }
}

pub open spec fn tags_view(tags: Seq<Tag>) -> Seq<TagV> {
    tags.map_values(|t: Tag| t@)
}

/// The binding table derived from the tags from position `i` on: each
/// tag's derived variable name bound to its decimal identifier.
pub open spec fn spec_build_vars(tags: Seq<TagV>, i: int, acc: EntrySeq) -> EntrySeq
    decreases tags.len() - i,
{
    if i < 0 || i >= tags.len() {
        acc
    } else {
        spec_build_vars(
            tags,
            i + 1,
            sm_insert(acc, spec_tag_var_name(tags[i].name), dec_digits(tags[i].id)),
        )
    }
}

/// Build the variable binding table for a list of fetched tags.
pub fn build_vars(tags: &Vec<Tag>) -> (r: StrMap)
    ensures
        r@ == spec_build_vars(tags_view(tags@), 0, Seq::empty()),
        r.wf(),
{
    let mut out = StrMap::new();
    let n = tags.len();
    let mut i: usize = 0;
    while i < n
        invariant
            i <= n,
            n == tags@.len(),
            out.wf(),
            spec_build_vars(tags_view(tags@), 0, Seq::empty()) == spec_build_vars(
                tags_view(tags@),
                i as int,
                out@,
            ),
        decreases n - i,
    {
        let t = &tags[i];
        let key = tag_var_name(t.name.as_str());
        let value = u64_to_dec(t.id);
        proof {
            assert(tags_view(tags@)[i as int] == t@);
        }
        out.insert(key, value);
        i = i + 1;
    }
    out
}

/// Assemble a configuration from freshly fetched saved searches and tags:
/// the binding table is derived from the tags, and every query is reverse
/// templated against it.
pub fn assemble_config(searches: Vec<Search>, tags: &Vec<Tag>) -> (r: Config)
    ensures
        r@.vars == spec_build_vars(tags_view(tags@), 0, Seq::empty()),
        r.wf(),
        r@.searches.len() == searches@.len(),
        forall|i: int|
            0 <= i < searches@.len() ==> (#[trigger] r@.searches[i]).name == searches@[i]@.name
                && r@.searches[i].query == spec_rewrite(searches@[i]@.query, r@.vars),
{
    let vars = build_vars(tags);
    let mut rewritten: Vec<Search> = Vec::new();
    let n = searches.len();
    let mut i: usize = 0;
    while i < n
        invariant
            i <= n,
            n == searches@.len(),
            rewritten@.len() == i,
            forall|j: int|
                0 <= j < i ==> (#[trigger] rewritten@[j])@.name == searches@[j]@.name
                    && rewritten@[j]@.query == spec_rewrite(searches@[j]@.query, vars@),
        decreases n - i,
    {
        let s = &searches[i];
        let q = rewrite_query(&s.query, &vars);
        rewritten.push(Search { name: s.name.clone(), query: q });
        i = i + 1;
    }
    let r = Config { vars, searches: rewritten };
    proof {
        assert(r@.searches.len() == n);
        assert(forall|i: int|
            0 <= i < n ==> (#[trigger] r@.searches[i]) == rewritten@[i]@);
    }
    r
}

} // verus!
