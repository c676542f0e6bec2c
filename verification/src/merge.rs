//! The merge policy for synchronization: fold a freshly fetched variable
//! binding table into an existing one. Fresh values win on a key collision;
//! keys unique to the existing table are preserved; keys unique to the
//! fresh table are added. Searches are not merged: the caller replaces the
//! search list wholesale with the freshly fetched one, a documented,
//! intentional data-loss risk for locally added searches.

use vstd::prelude::*;

use crate::config::Config;
use crate::strmap::{
    lemma_sm_get_index, lemma_sm_insert_get, lemma_sm_wf_drop, sm_contains, sm_get, sm_insert,
    sm_wf, EntrySeq, StrMap,
};
use crate::strutil::{lemma_lex_lt_irrefl, lex_lt};

verus! {

/// The merged table after folding the fresh entries from position `i` on
/// into `acc`.
pub open spec fn spec_merge_from(acc: EntrySeq, fresh: EntrySeq, i: int) -> EntrySeq
    decreases fresh.len() - i,
{
    if i < 0 || i >= fresh.len() {
        acc
    } else {
        spec_merge_from(sm_insert(acc, fresh[i].0, fresh[i].1), fresh, i + 1)
    }
}

/// The merged table: the existing entries with every fresh entry folded in.
pub open spec fn spec_merge(existing: EntrySeq, fresh: EntrySeq) -> EntrySeq {
    spec_merge_from(existing, fresh, 0)
}

/// In a sorted table, a key occurs at most once, so a key found in the
/// tail was not the head's key.
proof fn lemma_sm_unique_tail(fresh: EntrySeq, i: int, k: Seq<char>)
    requires
        sm_wf(fresh),
        0 <= i < fresh.len(),
        sm_contains(fresh.skip(i + 1), k),
    ensures
        fresh[i].0 != k,
{
    lemma_sm_get_index(fresh.skip(i + 1), k);
    let j = choose|j: int| 0 <= j < fresh.skip(i + 1).len() && (#[trigger] fresh.skip(i + 1)[j]).0
        == k;
    assert(fresh.skip(i + 1)[j] == fresh[i + 1 + j]);
    assert(lex_lt(fresh[i].0, fresh[i + 1 + j].0));
    lemma_lex_lt_irrefl(fresh[i].0, fresh[i + 1 + j].0);
}

/// What a lookup in the merged table returns: the fresh binding when the
/// fresh table has the key, the existing binding otherwise.
pub proof fn lemma_merge_get(acc: EntrySeq, fresh: EntrySeq, i: int, k: Seq<char>)
    requires
        sm_wf(fresh),
        0 <= i <= fresh.len(),
    ensures
        sm_get(spec_merge_from(acc, fresh, i), k) == match sm_get(fresh.skip(i), k) {
            Some(v) => Some(v),
            None => sm_get(acc, k),
        },
    decreases fresh.len() - i,
{
    if i >= fresh.len() {
        assert(fresh.skip(i) =~= Seq::<(Seq<char>, Seq<char>)>::empty());
    } else {
        let acc2 = sm_insert(acc, fresh[i].0, fresh[i].1);
        lemma_merge_get(acc2, fresh, i + 1, k);
        lemma_sm_insert_get(acc, fresh[i].0, fresh[i].1, k);
        assert(fresh.skip(i)[0] == fresh[i]);
        assert(fresh.skip(i).drop_first() =~= fresh.skip(i + 1));
        if fresh[i].0 == k {
            if sm_contains(fresh.skip(i + 1), k) {
                lemma_sm_unique_tail(fresh, i, k);
            }
        }
    }
}

/// Folding sorted entries into a sorted table keeps it sorted.
proof fn lemma_merge_wf(acc: EntrySeq, fresh: EntrySeq, i: int)
    requires
        sm_wf(acc),
        0 <= i <= fresh.len(),
    ensures
        sm_wf(spec_merge_from(acc, fresh, i)),
    decreases fresh.len() - i,
{
    if i < fresh.len() {
        crate::strmap::lemma_sm_insert_wf(acc, fresh[i].0, fresh[i].1);
        lemma_merge_wf(sm_insert(acc, fresh[i].0, fresh[i].1), fresh, i + 1);
    }
}

/// Merge a freshly fetched binding table into an existing one. Fresh
/// values win on key collisions; existing keys absent from the fresh table
/// keep their values.
pub fn merge_vars(existing: &StrMap, fresh: &StrMap) -> (r: StrMap)
    requires
        existing.wf(),
        fresh.wf(),
    ensures
        r@ == spec_merge(existing@, fresh@),
        r.wf(),
        forall|k: Seq<char>|
            #[trigger] sm_get(r@, k) == match sm_get(fresh@, k) {
                Some(v) => Some(v),
                None => sm_get(existing@, k),
            },
{
    let mut out = existing.clone();
    let n = fresh.len();
    let mut i: usize = 0;
    while i < n
        invariant
            i <= n,
            n == fresh@.len(),
            out.wf(),
            spec_merge(existing@, fresh@) == spec_merge_from(out@, fresh@, i as int),
        decreases n - i,
    {
        let (k, v) = fresh.entry_at(i);
        out.insert(k.clone(), v.clone());
        i = i + 1;
    }
    proof {
        assert forall|k: Seq<char>|
            #[trigger] sm_get(out@, k) == match sm_get(fresh@, k) {
                Some(v) => Some(v),
                None => sm_get(existing@, k),
            } by {
            lemma_merge_get(existing@, fresh@, 0, k);
            assert(fresh@.skip(0) =~= fresh@);
        }
    }
    out
}

/// Merge a pulled configuration into the existing one: bindings are merged
/// with fresh values winning, while the search list is replaced wholesale
/// by the pulled one.
pub fn merge_configs(existing: &Config, pulled: Config) -> (r: Config)
    requires
        existing.wf(),
        pulled.wf(),
    ensures
        r@.vars == spec_merge(existing@.vars, pulled@.vars),
        r@.searches == pulled@.searches,
        r.wf(),
        forall|k: Seq<char>|
            #[trigger] sm_get(r@.vars, k) == match sm_get(pulled@.vars, k) {
                Some(v) => Some(v),
                None => sm_get(existing@.vars, k),
            },
{
    let vars = merge_vars(&existing.vars, &pulled.vars);
    Config { vars, searches: pulled.searches }
}

} // verus!
