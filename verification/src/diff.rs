//! The diff engine: compares two resolved states and emits an ordered list
//! of create/update/delete operations. Creates and updates come first, in
//! ascending order of search name, then deletes, in the same order.

use vstd::prelude::*;

use crate::config::{Config, Search, SearchV};
use crate::resolve::{resolve_searches, spec_resolve, ResolveErrV, ResolveError};
use crate::strmap::{sm_contains, sm_get, EntrySeq, StrMap};

verus! {

/// One planned change to the remote state.
#[derive(Debug)]
pub enum DiffOp {
    /// The search exists only in the desired state.
    Create(Search),
    /// The search exists in both states with different resolved queries.
    Update { from: Search, to: Search },
    /// The search exists only in the current state.
    Delete(Search),
}

/// Abstract value of a `DiffOp`.
#[verifier::ext_equal]
pub ghost enum DiffOpV {
    Create(SearchV),
    Update { from: SearchV, to: SearchV },
    Delete(SearchV),
}

impl View for DiffOp {
    type V = DiffOpV;

    open spec fn view(&self) -> DiffOpV {
        match self {
            DiffOp::Create(s) => DiffOpV::Create(s@),
            DiffOp::Update { from, to } => DiffOpV::Update { from: from@, to: to@ },
            DiffOp::Delete(s) => DiffOpV::Delete(s@),
        }
    }
}

/// Abstract value of a list of operations.
pub open spec fn ops_view(ops: Seq<DiffOp>) -> Seq<DiffOpV> {
    ops.map_values(|o: DiffOp| o@)
}

/// First pass, from position `i` of the desired entries: a `Create` for
/// every name absent from `cur`, an `Update` for every name whose resolved
/// query differs.
pub open spec fn spec_pass1(des: EntrySeq, i: int, cur: EntrySeq) -> Seq<DiffOpV>
    decreases des.len() - i,
{
    if i < 0 || i >= des.len() {
        Seq::empty()
    } else {
        let name = des[i].0;
        let q = des[i].1;
        let rest = spec_pass1(des, i + 1, cur);
        match sm_get(cur, name) {
            None => seq![DiffOpV::Create(SearchV { name, query: q })] + rest,
            Some(oq) => if oq != q {
                seq![
                    DiffOpV::Update {
                        from: SearchV { name, query: oq },
                        to: SearchV { name, query: q },
                    },
                ] + rest
            } else {
                rest
            },
        }
    }
}

/// Second pass, from position `i` of the current entries: a `Delete` for
/// every name absent from `des`.
pub open spec fn spec_pass2(cur: EntrySeq, i: int, des: EntrySeq) -> Seq<DiffOpV>
    decreases cur.len() - i,
{
    if i < 0 || i >= cur.len() {
        Seq::empty()
    } else {
        let name = cur[i].0;
        let q = cur[i].1;
        let rest = spec_pass2(cur, i + 1, des);
        if sm_contains(des, name) {
            rest
        } else {
            seq![DiffOpV::Delete(SearchV { name, query: q })] + rest
        }
    }
}

/// The full diff of two resolved states: all creates and updates, then all
/// deletes, each pass in ascending name order of its sorted input.
pub open spec fn spec_diff(cur: EntrySeq, des: EntrySeq) -> Seq<DiffOpV> {
    spec_pass1(des, 0, cur) + spec_pass2(cur, 0, des)
}

/// How many operations of a list are creates.
pub open spec fn count_creates(ops: Seq<DiffOpV>) -> nat
    decreases ops.len(),
{
    if ops.len() == 0 {
        0
    } else {
        (if ops[0] is Create {
            1nat
        } else {
            0nat
        }) + count_creates(ops.drop_first())
    }
}

/// How many operations of a list are updates.
pub open spec fn count_updates(ops: Seq<DiffOpV>) -> nat
    decreases ops.len(),
{
    if ops.len() == 0 {
        0
    } else {
        (if ops[0] is Update {
            1nat
        } else {
            0nat
        }) + count_updates(ops.drop_first())
    }
}

/// How many operations of a list are deletes.
pub open spec fn count_deletes(ops: Seq<DiffOpV>) -> nat
    decreases ops.len(),
{
    if ops.len() == 0 {
        0
    } else {
        (if ops[0] is Delete {
            1nat
        } else {
            0nat
        }) + count_deletes(ops.drop_first())
    }
}

/// The names of a resolved state's entries.
pub open spec fn key_seq(s: EntrySeq) -> Seq<Seq<char>> {
    s.map_values(|e: (Seq<char>, Seq<char>)| e.0)
}

/// The names of a resolved state, as a set.
pub open spec fn names_of(s: EntrySeq) -> Set<Seq<char>> {
    key_seq(s).to_set()
}

/// How many entries of `des` carry a name that is also in `cur` but with a
/// different resolved text.
pub open spec fn count_changed(des: EntrySeq, cur: EntrySeq) -> nat
    decreases des.len(),
{
    if des.len() == 0 {
        0
    } else {
        (if sm_contains(cur, des[0].0) && sm_get(cur, des[0].0) != Some(des[0].1) {
            1nat
        } else {
            0nat
        }) + count_changed(des.drop_first(), cur)
    }
}

proof fn lemma_counts_prepend(x: DiffOpV, rest: Seq<DiffOpV>)
    ensures
        count_creates(seq![x] + rest) == (if x is Create {
            1nat
        } else {
            0nat
        }) + count_creates(rest),
        count_updates(seq![x] + rest) == (if x is Update {
            1nat
        } else {
            0nat
        }) + count_updates(rest),
        count_deletes(seq![x] + rest) == (if x is Delete {
            1nat
        } else {
            0nat
        }) + count_deletes(rest),
{
    assert((seq![x] + rest).drop_first() =~= rest);
}

proof fn lemma_counts_concat(a: Seq<DiffOpV>, b: Seq<DiffOpV>)
    ensures
        count_creates(a + b) == count_creates(a) + count_creates(b),
        count_updates(a + b) == count_updates(a) + count_updates(b),
        count_deletes(a + b) == count_deletes(a) + count_deletes(b),
    decreases a.len(),
{
    if a.len() == 0 {
        assert(a + b =~= b);
    } else {
        assert((a + b)[0] == a[0]);
        assert((a + b).drop_first() =~= a.drop_first() + b);
        lemma_counts_concat(a.drop_first(), b);
    }
}

/// A name can occur in a resolved state's entries exactly when lookup
/// finds it.
proof fn lemma_names_of_contains(s: EntrySeq, k: Seq<char>)
    ensures
        names_of(s).contains(k) <==> sm_contains(s, k),
{
    crate::strmap::lemma_sm_get_index(s, k);
    if names_of(s).contains(k) {
        let j = choose|j: int| 0 <= j < key_seq(s).len() && #[trigger] key_seq(s)[j] == k;
        assert(s[j].0 == k);
    }
    if sm_contains(s, k) {
        let j = choose|j: int| 0 <= j < s.len() && (#[trigger] s[j]).0 == k;
        assert(key_seq(s)[j] == k);
        assert(key_seq(s).contains(k));
    }
}

/// In a sorted state, the head's name does not recur in the tail.
proof fn lemma_head_not_in_tail(s: EntrySeq, i: int)
    requires
        crate::strmap::sm_wf(s),
        0 <= i < s.len(),
    ensures
        !names_of(s.skip(i + 1)).contains(s[i].0),
{
    if names_of(s.skip(i + 1)).contains(s[i].0) {
        let t = s.skip(i + 1);
        let j = choose|j: int| 0 <= j < key_seq(t).len() && #[trigger] key_seq(t)[j] == s[i].0;
        assert(t[j].0 == s[i].0);
        assert(t[j] == s[i + 1 + j]);
        assert(crate::strutil::lex_lt(s[i].0, s[i + 1 + j].0));
        crate::strutil::lemma_lex_lt_irrefl(s[i].0, s[i + 1 + j].0);
    }
}

proof fn lemma_pass1_counts(des: EntrySeq, i: int, cur: EntrySeq)
    requires
        crate::strmap::sm_wf(des),
        0 <= i <= des.len(),
    ensures
        count_creates(spec_pass1(des, i, cur)) == names_of(des.skip(i)).difference(
            names_of(cur),
        ).len(),
        count_updates(spec_pass1(des, i, cur)) == count_changed(des.skip(i), cur),
        count_deletes(spec_pass1(des, i, cur)) == 0,
    decreases des.len() - i,
{
    broadcast use vstd::seq_lib::seq_to_set_is_finite;

    if i >= des.len() {
        assert(des.skip(i) =~= Seq::<(Seq<char>, Seq<char>)>::empty());
        assert(key_seq(des.skip(i)) =~= Seq::<Seq<char>>::empty());
        assert(names_of(des.skip(i)).difference(names_of(cur)) =~= Set::<Seq<char>>::empty());
    } else {
        crate::strmap::lemma_sm_wf_drop(des.skip(i));
        lemma_pass1_counts(des, i + 1, cur);
        let k = des[i].0;
        let rest = spec_pass1(des, i + 1, cur);
        assert(des.skip(i).drop_first() =~= des.skip(i + 1));
        assert(names_of(des.skip(i)) =~= names_of(des.skip(i + 1)).insert(k)) by {
            assert(key_seq(des.skip(i))[0] == k);
            assert forall|x: Seq<char>| names_of(des.skip(i)).contains(x) implies names_of(
                des.skip(i + 1),
            ).insert(k).contains(x) by {
                let j = choose|j: int|
                    0 <= j < key_seq(des.skip(i)).len() && #[trigger] key_seq(des.skip(i))[j] == x;
                if j > 0 {
                    assert(key_seq(des.skip(i + 1))[j - 1] == x);
                    assert(key_seq(des.skip(i + 1)).contains(x));
                }
            }
            assert forall|x: Seq<char>| names_of(des.skip(i + 1)).insert(k).contains(x) implies
                names_of(des.skip(i)).contains(x) by {
                if x == k {
                    assert(key_seq(des.skip(i)).contains(k)) by {
                        assert(key_seq(des.skip(i))[0] == k);
                    }
                } else {
                    let j = choose|j: int|
                        0 <= j < key_seq(des.skip(i + 1)).len() && #[trigger] key_seq(des.skip(i + 1))[j] == x;
                    assert(key_seq(des.skip(i))[j + 1] == x);
                    assert(key_seq(des.skip(i)).contains(x));
                }
            }
        }
        lemma_head_not_in_tail(des, i);
        lemma_names_of_contains(cur, k);
        match sm_get(cur, k) {
            None => {
                lemma_counts_prepend(
                    DiffOpV::Create(SearchV { name: k, query: des[i].1 }),
                    rest,
                );
                assert(names_of(des.skip(i)).difference(names_of(cur)) =~= names_of(
                    des.skip(i + 1),
                ).difference(names_of(cur)).insert(k));
                assert(!names_of(des.skip(i + 1)).difference(names_of(cur)).contains(k));
            },
            Some(oq) => {
                if oq != des[i].1 {
                    lemma_counts_prepend(
                        DiffOpV::Update {
                            from: SearchV { name: k, query: oq },
                            to: SearchV { name: k, query: des[i].1 },
                        },
                        rest,
                    );
                }
                assert(names_of(des.skip(i)).difference(names_of(cur)) =~= names_of(
                    des.skip(i + 1),
                ).difference(names_of(cur)));
            },
        }
    }
}

proof fn lemma_pass2_counts(cur: EntrySeq, i: int, des: EntrySeq)
    requires
        crate::strmap::sm_wf(cur),
        0 <= i <= cur.len(),
    ensures
        count_deletes(spec_pass2(cur, i, des)) == names_of(cur.skip(i)).difference(
            names_of(des),
        ).len(),
        count_creates(spec_pass2(cur, i, des)) == 0,
        count_updates(spec_pass2(cur, i, des)) == 0,
    decreases cur.len() - i,
{
    broadcast use vstd::seq_lib::seq_to_set_is_finite;

    if i >= cur.len() {
        assert(cur.skip(i) =~= Seq::<(Seq<char>, Seq<char>)>::empty());
        assert(key_seq(cur.skip(i)) =~= Seq::<Seq<char>>::empty());
        assert(names_of(cur.skip(i)).difference(names_of(des)) =~= Set::<Seq<char>>::empty());
    } else {
        lemma_pass2_counts(cur, i + 1, des);
        let k = cur[i].0;
        let rest = spec_pass2(cur, i + 1, des);
        assert(names_of(cur.skip(i)) =~= names_of(cur.skip(i + 1)).insert(k)) by {
            assert(key_seq(cur.skip(i))[0] == k);
            assert forall|x: Seq<char>| names_of(cur.skip(i)).contains(x) implies names_of(
                cur.skip(i + 1),
            ).insert(k).contains(x) by {
                let j = choose|j: int|
                    0 <= j < key_seq(cur.skip(i)).len() && #[trigger] key_seq(cur.skip(i))[j] == x;
                if j > 0 {
                    assert(key_seq(cur.skip(i + 1))[j - 1] == x);
                    assert(key_seq(cur.skip(i + 1)).contains(x));
                }
            }
            assert forall|x: Seq<char>| names_of(cur.skip(i + 1)).insert(k).contains(x) implies
                names_of(cur.skip(i)).contains(x) by {
                if x == k {
                    assert(key_seq(cur.skip(i))[0] == k);
                    assert(key_seq(cur.skip(i)).contains(k));
                } else {
                    let j = choose|j: int|
                        0 <= j < key_seq(cur.skip(i + 1)).len() && #[trigger] key_seq(cur.skip(i + 1))[j] == x;
                    assert(key_seq(cur.skip(i))[j + 1] == x);
                    assert(key_seq(cur.skip(i)).contains(x));
                }
            }
        }
        lemma_head_not_in_tail(cur, i);
        lemma_names_of_contains(des, k);
        if sm_contains(des, k) {
            assert(names_of(cur.skip(i)).difference(names_of(des)) =~= names_of(
                cur.skip(i + 1),
            ).difference(names_of(des)));
        } else {
            lemma_counts_prepend(DiffOpV::Delete(SearchV { name: k, query: cur[i].1 }), rest);
            assert(names_of(cur.skip(i)).difference(names_of(des)) =~= names_of(
                cur.skip(i + 1),
            ).difference(names_of(des)).insert(k));
            assert(!names_of(cur.skip(i + 1)).difference(names_of(des)).contains(k));
        }
    }
}

/// The names present in both states whose resolved texts differ.
pub open spec fn changed_names(cur: EntrySeq, des: EntrySeq) -> Set<Seq<char>> {
    names_of(des).filter(
        |k: Seq<char>| sm_contains(cur, k) && sm_contains(des, k) && sm_get(cur, k) != sm_get(
            des,
            k,
        ),
    )
}

/// On sorted entries, counting the changed entries is counting the changed
/// names.
proof fn lemma_count_changed_set(des: EntrySeq, i: int, cur: EntrySeq)
    requires
        crate::strmap::sm_wf(des),
        0 <= i <= des.len(),
    ensures
        count_changed(des.skip(i), cur) == changed_names(cur, des).intersect(
            names_of(des.skip(i)),
        ).len(),
    decreases des.len() - i,
{
    broadcast use vstd::seq_lib::seq_to_set_is_finite;

    let cn = changed_names(cur, des);
    if i >= des.len() {
        assert(des.skip(i) =~= Seq::<(Seq<char>, Seq<char>)>::empty());
        assert(key_seq(des.skip(i)) =~= Seq::<Seq<char>>::empty());
        assert(cn.intersect(names_of(des.skip(i))) =~= Set::<Seq<char>>::empty());
    } else {
        lemma_count_changed_set(des, i + 1, cur);
        let k = des[i].0;
        assert(des.skip(i).drop_first() =~= des.skip(i + 1));
        assert(names_of(des.skip(i)) =~= names_of(des.skip(i + 1)).insert(k)) by {
            assert(key_seq(des.skip(i))[0] == k);
            assert forall|x: Seq<char>| names_of(des.skip(i)).contains(x) implies names_of(
                des.skip(i + 1),
            ).insert(k).contains(x) by {
                let j = choose|j: int|
                    0 <= j < key_seq(des.skip(i)).len() && #[trigger] key_seq(des.skip(i))[j] == x;
                if j > 0 {
                    assert(key_seq(des.skip(i + 1))[j - 1] == x);
                    assert(key_seq(des.skip(i + 1)).contains(x));
                }
            }
            assert forall|x: Seq<char>| names_of(des.skip(i + 1)).insert(k).contains(x) implies
                names_of(des.skip(i)).contains(x) by {
                if x == k {
                    assert(key_seq(des.skip(i))[0] == k);
                    assert(key_seq(des.skip(i)).contains(k));
                } else {
                    let j = choose|j: int|
                        0 <= j < key_seq(des.skip(i + 1)).len() && #[trigger] key_seq(
                            des.skip(i + 1),
                        )[j] == x;
                    assert(key_seq(des.skip(i))[j + 1] == x);
                    assert(key_seq(des.skip(i)).contains(x));
                }
            }
        }
        lemma_head_not_in_tail(des, i);
        // The entry at `i` names `k` with text `des[i].1`, and sorted
        // entries give lookup exactly that text.
        crate::strmap::lemma_sm_get_at(des, i);
        lemma_names_of_contains(cur, k);
        let with_k = cn.intersect(names_of(des.skip(i)));
        let without_k = cn.intersect(names_of(des.skip(i + 1)));
        if sm_contains(cur, k) && sm_get(cur, k) != Some(des[i].1) {
            assert(cn.contains(k)) by {
                assert(names_of(des).contains(k)) by {
                    assert(des.skip(0) =~= des);
                    assert(names_of(des.skip(0)).contains(k)) by {
                        assert(key_seq(des.skip(0))[i] == k);
                        assert(key_seq(des.skip(0)).contains(k));
                    }
                }
            }
            assert(with_k =~= without_k.insert(k));
            assert(!without_k.contains(k));
        } else {
            assert(with_k =~= without_k);
        }
    }
}

/// Diffing two sorted resolved states yields exactly one `Create` per name
/// unique to the desired state, one `Delete` per name unique to the
/// current state, and one `Update` per name shared by both whose resolved
/// text differs.
pub proof fn lemma_diff_counts(cur: EntrySeq, des: EntrySeq)
    requires
        crate::strmap::sm_wf(cur),
        crate::strmap::sm_wf(des),
    ensures
        count_creates(spec_diff(cur, des)) == names_of(des).difference(names_of(cur)).len(),
        count_deletes(spec_diff(cur, des)) == names_of(cur).difference(names_of(des)).len(),
        count_updates(spec_diff(cur, des)) == changed_names(cur, des).len(),
{
    lemma_pass1_counts(des, 0, cur);
    lemma_pass2_counts(cur, 0, des);
    lemma_counts_concat(spec_pass1(des, 0, cur), spec_pass2(cur, 0, des));
    assert(des.skip(0) =~= des);
    assert(cur.skip(0) =~= cur);
    lemma_count_changed_set(des, 0, cur);
    assert(changed_names(cur, des).intersect(names_of(des)) =~= changed_names(cur, des));
}

proof fn lemma_pass1_self(s: EntrySeq, i: int)
    requires
        crate::strmap::sm_wf(s),
        0 <= i <= s.len(),
    ensures
        spec_pass1(s, i, s) =~= Seq::<DiffOpV>::empty(),
    decreases s.len() - i,
{
    if i < s.len() {
        crate::strmap::lemma_sm_get_at(s, i);
        lemma_pass1_self(s, i + 1);
    }
}

proof fn lemma_pass2_self(s: EntrySeq, i: int)
    requires
        crate::strmap::sm_wf(s),
        0 <= i <= s.len(),
    ensures
        spec_pass2(s, i, s) =~= Seq::<DiffOpV>::empty(),
    decreases s.len() - i,
{
    if i < s.len() {
        crate::strmap::lemma_sm_get_at(s, i);
        lemma_pass2_self(s, i + 1);
    }
}

/// Diffing a resolved state against itself yields no operations.
pub proof fn lemma_diff_self_empty(s: EntrySeq)
    requires
        crate::strmap::sm_wf(s),
    ensures
        spec_diff(s, s) =~= Seq::<DiffOpV>::empty(),
{
    lemma_pass1_self(s, 0);
    lemma_pass2_self(s, 0);
}

/// Resolve both configurations with their own bindings and diff the two
/// resolved states.
pub fn diff_configs(current: &Config, desired: &Config) -> (r: Result<Vec<DiffOp>, ResolveError>)
    requires
        current.wf(),
        desired.wf(),
    ensures
        match r {
            Ok(ops) => spec_resolve(current@) is Ok && spec_resolve(desired@) is Ok && ops_view(
                ops@,
            ) == spec_diff(spec_resolve(current@)->Ok_0, spec_resolve(desired@)->Ok_0),
            Err(e) => spec_resolve(current@) == Err::<EntrySeq, ResolveErrV>(e@) || (spec_resolve(
                current@,
            ) is Ok && spec_resolve(desired@) == Err::<EntrySeq, ResolveErrV>(e@)),
        },
{
    let cur = match resolve_searches(current) {
        Ok(m) => m,
        Err(e) => {
            return Err(e);
        },
    };
    let des = match resolve_searches(desired) {
        Ok(m) => m,
        Err(e) => {
            return Err(e);
        },
    };

    let mut ops: Vec<DiffOp> = Vec::new();

    let dn = des.len();
    let mut i: usize = 0;
    proof {
        assert(ops_view(ops@) + spec_pass1(des@, 0, cur@) =~= spec_pass1(des@, 0, cur@));
    }
    while i < dn
        invariant
            i <= dn,
            dn == des@.len(),
            ops_view(ops@) + spec_pass1(des@, i as int, cur@) =~= spec_pass1(des@, 0, cur@),
        decreases dn - i,
    {
        let (name, new_q) = des.entry_at(i);
        let ghost ops0 = ops@;
        match cur.get(name) {
            None => {
                ops.push(DiffOp::Create(Search::new(name.clone(), new_q.clone())));
            },
            Some(old_q) => {
                if !(*old_q == *new_q) {
                    ops.push(
                        DiffOp::Update {
                            from: Search::new(name.clone(), old_q.clone()),
                            to: Search::new(name.clone(), new_q.clone()),
                        },
                    );
                }
            },
        }
        proof {
            if ops@.len() > ops0.len() {
                assert(ops_view(ops@) =~= ops_view(ops0) + seq![ops@.last()@]);
            } else {
                assert(ops_view(ops@) =~= ops_view(ops0));
            }
            assert(ops_view(ops@) + spec_pass1(des@, i + 1, cur@) =~= spec_pass1(des@, 0, cur@));
        }
        i = i + 1;
    }

    let cn = cur.len();
    let mut k: usize = 0;
    proof {
        assert(ops_view(ops@) + spec_pass2(cur@, 0, des@) =~= spec_diff(cur@, des@));
    }
    while k < cn
        invariant
            k <= cn,
            cn == cur@.len(),
            ops_view(ops@) + spec_pass2(cur@, k as int, des@) =~= spec_diff(cur@, des@),
        decreases cn - k,
    {
        let (name, old_q) = cur.entry_at(k);
        let ghost ops0 = ops@;
        if !des.contains_key(name) {
            ops.push(DiffOp::Delete(Search::new(name.clone(), old_q.clone())));
        }
        proof {
            if ops@.len() > ops0.len() {
                assert(ops_view(ops@) =~= ops_view(ops0) + seq![ops@.last()@]);
            } else {
                assert(ops_view(ops@) =~= ops_view(ops0));
            }
            assert(ops_view(ops@) + spec_pass2(cur@, k + 1, des@) =~= spec_diff(cur@, des@));
        }
        k = k + 1;
    }

    proof {
        assert(ops_view(ops@) + Seq::<DiffOpV>::empty() =~= ops_view(ops@));
    }
    Ok(ops)
}

} // verus!
