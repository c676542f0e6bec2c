//! An ordered map from strings to strings, kept as a vector of entries
//! sorted strictly by key. It backs both the variable binding table of a
//! configuration and the resolved state used for diffing, so that walking
//! the entries visits keys in ascending lexicographic order.

use vstd::prelude::*;

use crate::strutil::{lemma_lex_lt_irrefl, lemma_lex_lt_total, lemma_lex_lt_trans, lex_lt, str_lt};

verus! {

/// One abstract entry: key and value as character sequences.
pub type EntrySeq = Seq<(Seq<char>, Seq<char>)>;

/// The entries are strictly sorted by key, which also makes keys unique.
pub open spec fn sm_wf(s: EntrySeq) -> bool {
    forall|i: int, j: int| 0 <= i < j < s.len() ==> lex_lt(#[trigger] s[i].0, #[trigger] s[j].0)
}

/// First-match lookup in an entry sequence.
pub open spec fn sm_get(s: EntrySeq, k: Seq<char>) -> Option<Seq<char>>
    decreases s.len(),
{
    if s.len() == 0 {
        None
    } else if s[0].0 == k {
        Some(s[0].1)
    } else {
        sm_get(s.drop_first(), k)
    }
}

pub open spec fn sm_contains(s: EntrySeq, k: Seq<char>) -> bool {
    sm_get(s, k) is Some
}

/// Insertion into a sorted entry sequence: replaces the value on an equal
/// key, otherwise places the new entry before the first larger key.
pub open spec fn sm_insert(s: EntrySeq, k: Seq<char>, v: Seq<char>) -> EntrySeq
    decreases s.len(),
{
    if s.len() == 0 {
        seq![(k, v)]
    } else if lex_lt(k, s[0].0) {
        seq![(k, v)] + s
    } else if s[0].0 == k {
        seq![(k, v)] + s.drop_first()
    } else {
        seq![s[0]] + sm_insert(s.drop_first(), k, v)
    }
}

/// Lookup succeeds exactly when some entry carries the key.
pub proof fn lemma_sm_get_index(s: EntrySeq, k: Seq<char>)
    ensures
        sm_contains(s, k) <==> exists|i: int| 0 <= i < s.len() && (#[trigger] s[i]).0 == k,
        sm_contains(s, k) ==> exists|i: int|
            0 <= i < s.len() && (#[trigger] s[i]).0 == k && s[i].1 == sm_get(s, k)->Some_0,
    decreases s.len(),
{
    if s.len() != 0 {
        if s[0].0 == k {
        } else {
            lemma_sm_get_index(s.drop_first(), k);
            if sm_contains(s, k) {
                let i = choose|i: int|
                    0 <= i < s.drop_first().len() && (#[trigger] s.drop_first()[i]).0 == k
                        && s.drop_first()[i].1 == sm_get(s.drop_first(), k)->Some_0;
                assert(s[i + 1] == s.drop_first()[i]);
            }
            if exists|i: int| 0 <= i < s.len() && (#[trigger] s[i]).0 == k {
                let i = choose|i: int| 0 <= i < s.len() && (#[trigger] s[i]).0 == k;
                assert(s.drop_first()[i - 1] == s[i]);
            }
        }
    }
}

/// If an entry sequence is sorted and an entry carries the key, lookup
/// returns that entry's value.
pub proof fn lemma_sm_get_at(s: EntrySeq, i: int)
    requires
        sm_wf(s),
        0 <= i < s.len(),
    ensures
        sm_get(s, s[i].0) == Some(s[i].1),
    decreases s.len(),
{
    if i == 0 {
    } else {
        assert(lex_lt(s[0].0, s[i].0));
        lemma_lex_lt_irrefl(s[0].0, s[i].0);
        assert(forall|p: int, q: int|
            0 <= p < q < s.drop_first().len() ==> lex_lt(
                #[trigger] s.drop_first()[p].0,
                #[trigger] s.drop_first()[q].0,
            )) by {
            assert(forall|p: int| 0 <= p < s.drop_first().len() ==> s.drop_first()[p] == s[p + 1]);
        }
        lemma_sm_get_at(s.drop_first(), i - 1);
        assert(s.drop_first()[i - 1] == s[i]);
    }
}

/// A sorted tail is sorted.
pub proof fn lemma_sm_wf_drop(s: EntrySeq)
    requires
        sm_wf(s),
        s.len() > 0,
    ensures
        sm_wf(s.drop_first()),
{
    assert(forall|p: int| 0 <= p < s.drop_first().len() ==> s.drop_first()[p] == s[p + 1]);
}

/// Sorted insertion keeps the sequence sorted.
pub proof fn lemma_sm_insert_wf(s: EntrySeq, k: Seq<char>, v: Seq<char>)
    requires
        sm_wf(s),
    ensures
        sm_wf(sm_insert(s, k, v)),
    decreases s.len(),
{
    let r = sm_insert(s, k, v);
    if s.len() == 0 {
    } else if lex_lt(k, s[0].0) {
        assert forall|i: int, j: int| 0 <= i < j < r.len() implies lex_lt(r[i].0, r[j].0) by {
            if i == 0 {
                if j > 1 {
                    lemma_lex_lt_trans(k, s[0].0, s[j - 1].0);
                }
            }
        }
    } else if s[0].0 == k {
        assert forall|i: int, j: int| 0 <= i < j < r.len() implies lex_lt(r[i].0, r[j].0) by {
            assert(r[j] == s[j]);
            if i > 0 {
                assert(r[i] == s[i]);
            }
        }
    } else {
        lemma_lex_lt_total(k, s[0].0);
        lemma_lex_lt_irrefl(k, s[0].0);
        assert(lex_lt(s[0].0, k));
        lemma_sm_wf_drop(s);
        lemma_sm_insert_wf(s.drop_first(), k, v);
        let rt = sm_insert(s.drop_first(), k, v);
        lemma_sm_insert_keys(s.drop_first(), k, v);
        assert forall|i: int, j: int| 0 <= i < j < r.len() implies lex_lt(r[i].0, r[j].0) by {
            if i == 0 {
                assert(r[j] == rt[j - 1]);
                if rt[j - 1].0 == k {
                } else {
                    let m = choose|m: int|
                        0 <= m < s.drop_first().len() && (#[trigger] s.drop_first()[m]).0 == rt[j
                            - 1].0;
                    assert(s[m + 1] == s.drop_first()[m]);
                    assert(lex_lt(s[0].0, s[m + 1].0));
                }
            } else {
                assert(r[i] == rt[i - 1]);
                assert(r[j] == rt[j - 1]);
            }
        }
    }
}

/// Every key of an inserted sequence is the new key or one of the old keys.
pub proof fn lemma_sm_insert_keys(s: EntrySeq, k: Seq<char>, v: Seq<char>)
    ensures
        forall|i: int|
            0 <= i < sm_insert(s, k, v).len() ==> (#[trigger] sm_insert(s, k, v)[i]).0 == k
                || exists|m: int| 0 <= m < s.len() && (#[trigger] s[m]).0 == sm_insert(s, k, v)[i].0,
    decreases s.len(),
{
    let r = sm_insert(s, k, v);
    if s.len() == 0 {
    } else if lex_lt(k, s[0].0) {
        assert forall|i: int| 0 <= i < r.len() && r[i].0 != k implies exists|m: int|
            0 <= m < s.len() && (#[trigger] s[m]).0 == r[i].0 by {
            assert(s[i - 1] == r[i]);
        }
    } else if s[0].0 == k {
        assert forall|i: int| 0 <= i < r.len() && r[i].0 != k implies exists|m: int|
            0 <= m < s.len() && (#[trigger] s[m]).0 == r[i].0 by {
            assert(s[i] == r[i]);
        }
    } else {
        lemma_sm_insert_keys(s.drop_first(), k, v);
        let rt = sm_insert(s.drop_first(), k, v);
        assert forall|i: int| 0 <= i < r.len() && r[i].0 != k implies exists|m: int|
            0 <= m < s.len() && (#[trigger] s[m]).0 == r[i].0 by {
            if i == 0 {
                assert(s[0].0 == r[0].0);
            } else {
                assert(r[i] == rt[i - 1]);
                let m = choose|m: int|
                    0 <= m < s.drop_first().len() && (#[trigger] s.drop_first()[m]).0 == rt[i - 1].0;
                assert(s[m + 1] == s.drop_first()[m]);
            }
        }
    }
}

/// Inserting a key above every present key appends the entry at the end.
pub proof fn lemma_sm_insert_append(s: EntrySeq, k: Seq<char>, v: Seq<char>)
    requires
        sm_wf(s),
        forall|i: int| 0 <= i < s.len() ==> lex_lt((#[trigger] s[i]).0, k),
    ensures
        sm_insert(s, k, v) =~= s.push((k, v)),
    decreases s.len(),
{
    if s.len() == 0 {
        assert(sm_insert(s, k, v) =~= s.push((k, v)));
    } else {
        assert(lex_lt(s[0].0, k));
        lemma_lex_lt_irrefl(s[0].0, k);
        lemma_lex_lt_total(k, s[0].0);
        assert(!lex_lt(k, s[0].0));
        assert(s[0].0 != k);
        lemma_sm_wf_drop(s);
        assert(forall|i: int|
            0 <= i < s.drop_first().len() ==> (#[trigger] s.drop_first()[i]) == s[i + 1]);
        lemma_sm_insert_append(s.drop_first(), k, v);
        assert(seq![s[0]] + s.drop_first().push((k, v)) =~= s.push((k, v)));
    }
}

/// What lookup returns after an insertion.
pub proof fn lemma_sm_insert_get(s: EntrySeq, k: Seq<char>, v: Seq<char>, k2: Seq<char>)
    ensures
        sm_get(sm_insert(s, k, v), k2) == if k2 == k {
            Some(v)
        } else {
            sm_get(s, k2)
        },
    decreases s.len(),
{
    let r = sm_insert(s, k, v);
    if s.len() == 0 {
        if k2 == k {
        } else {
            assert(r.drop_first() =~= Seq::<(Seq<char>, Seq<char>)>::empty());
        }
    } else if lex_lt(k, s[0].0) {
        assert(r.drop_first() =~= s);
    } else if s[0].0 == k {
        assert(r.drop_first() =~= s.drop_first());
    } else {
        lemma_sm_insert_get(s.drop_first(), k, v, k2);
        assert(r[0] == s[0]);
        assert(r.drop_first() =~= sm_insert(s.drop_first(), k, v));
    }
}

/// An ordered string-to-string map with entries sorted by key.
#[derive(Debug)]
pub struct StrMap {
    entries: Vec<(String, String)>,
}

impl View for StrMap {
    type V = EntrySeq;

    closed spec fn view(&self) -> EntrySeq {
        self.entries@.map_values(|e: (String, String)| (e.0@, e.1@))
    }
}

impl StrMap {
    /// The entries are strictly sorted by key.
    pub open spec fn wf(&self) -> bool {
        sm_wf(self@)
    }

    pub fn new() -> (r: StrMap)
        ensures
            r@ =~= Seq::<(Seq<char>, Seq<char>)>::empty(),
            r.wf(),
    {
        StrMap { entries: Vec::new() }
    }

    pub fn len(&self) -> (n: usize)
        ensures
            n == self@.len(),
    {
        self.entries.len()
    }

    /// The entry at a position, in ascending key order.
    pub fn entry_at(&self, i: usize) -> (e: (&String, &String))
        requires
            i < self@.len(),
        ensures
            e.0@ == self@[i as int].0,
            e.1@ == self@[i as int].1,
    {
        let p = &self.entries[i];
        (&p.0, &p.1)
    }

    pub fn get(&self, k: &String) -> (r: Option<&String>)
        ensures
            match r {
                Some(v) => sm_get(self@, k@) == Some(v@),
                None => sm_get(self@, k@) is None,
            },
    {
        let n = self.entries.len();
        let mut i: usize = 0;
        while i < n
            invariant
                i <= n,
                n == self@.len(),
                forall|j: int| 0 <= j < i ==> (#[trigger] self@[j]).0 != k@,
            decreases n - i,
        {
            if self.entries[i].0 == *k {
                proof {
                    lemma_sm_get_first_match(self@, k@, i as int);
                }
                return Some(&self.entries[i].1);
            }
            i = i + 1;
        }
        proof {
            lemma_sm_get_index(self@, k@);
        }
        None
    }

    pub fn contains_key(&self, k: &String) -> (r: bool)
        ensures
            r == sm_contains(self@, k@),
    {
        match self.get(k) {
            Some(_) => true,
            None => false,
        }
    }

    pub fn insert(&mut self, k: String, v: String)
        requires
            old(self).wf(),
        ensures
            final(self)@ == sm_insert(old(self)@, k@, v@),
            final(self).wf(),
    {
        let ghost s0 = self@;
        let n = self.entries.len();
        let mut i: usize = 0;
        loop
            invariant
                i <= n,
                n == self@.len(),
                self@ == s0,
                forall|j: int| 0 <= j < i ==> lex_lt((#[trigger] self@[j]).0, k@),
            ensures
                i <= n,
                self@ == s0,
                forall|j: int| 0 <= j < i ==> lex_lt((#[trigger] self@[j]).0, k@),
                i < n ==> !lex_lt(self@[i as int].0, k@),
            decreases n - i,
        {
            if i >= n {
                break;
            }
            if !str_lt(self.entries[i].0.as_str(), k.as_str()) {
                break;
            }
            i = i + 1;
        }
        // i is the first position whose key is not below k
        if i < n && self.entries[i].0 == k {
            self.entries.remove(i);
            self.entries.insert(i, (k, v));
            proof {
                lemma_sm_insert_at(s0, k@, v@, i as int);
                assert(self@ =~= s0.subrange(0, i as int) + seq![(k@, v@)] + s0.skip(i + 1));
                lemma_sm_insert_wf(s0, k@, v@);
            }
        } else {
            self.entries.insert(i, (k, v));
            proof {
                lemma_sm_insert_at(s0, k@, v@, i as int);
                assert(self@ =~= s0.subrange(0, i as int) + seq![(k@, v@)] + s0.skip(i as int));
                lemma_sm_insert_wf(s0, k@, v@);
            }
        }
    }
}

/// A chain of adjacent orderings composes along the sequence.
proof fn lemma_lex_chain(s: EntrySeq, i: int, j: int)
    requires
        forall|p: int| 0 <= p < s.len() - 1 ==> lex_lt((#[trigger] s[p]).0, s[p + 1].0),
        0 <= i < j < s.len(),
    ensures
        lex_lt(s[i].0, s[j].0),
    decreases j - i,
{
    if j > i + 1 {
        lemma_lex_chain(s, i, j - 1);
        lemma_lex_lt_trans(s[i].0, s[j - 1].0, s[j].0);
    }
}

impl StrMap {
    /// Decide well-formedness: every adjacent pair of keys in order.
    pub fn is_sorted(&self) -> (r: bool)
        ensures
            r == self.wf(),
    {
        let n = self.entries.len();
        if n == 0 {
            return true;
        }
        let mut i: usize = 0;
        while i < n - 1
            invariant
                n == self@.len(),
                n >= 1,
                i < n,
                forall|p: int| 0 <= p < i ==> lex_lt((#[trigger] self@[p]).0, self@[p + 1].0),
            decreases n - i,
        {
            if !str_lt(self.entries[i].0.as_str(), self.entries[i + 1].0.as_str()) {
                proof {
                    assert(!lex_lt(self@[i as int].0, self@[i + 1].0));
                }
                return false;
            }
            i = i + 1;
        }
        proof {
            assert forall|p: int, q: int| 0 <= p < q < self@.len() implies lex_lt(
                (#[trigger] self@[p]).0,
                (#[trigger] self@[q]).0,
            ) by {
                lemma_lex_chain(self@, p, q);
            }
        }
        true
    }
}

impl Clone for StrMap {
    fn clone(&self) -> (r: StrMap)
        ensures
            r@ == self@,
    {
        let n = self.entries.len();
        let mut entries: Vec<(String, String)> = Vec::new();
        let mut i: usize = 0;
        while i < n
            invariant
                i <= n,
                n == self.entries@.len(),
                entries@.map_values(|e: (String, String)| (e.0@, e.1@)) =~~= self@.take(i as int),
            decreases n - i,
        {
            let (k, v) = self.entry_at(i);
            let ghost old_entries = entries@;
            entries.push((k.clone(), v.clone()));
            proof {
                let m1 = entries@.map_values(|e: (String, String)| (e.0@, e.1@));
                let m0 = old_entries.map_values(|e: (String, String)| (e.0@, e.1@));
                assert(m0.len() == old_entries.len());
                assert(m0 == self@.take(i as int));
                assert(entries@ == old_entries.push((entries@.last().0, entries@.last().1)));
                assert(entries@.len() == i + 1);
                assert(entries@.last().0@ == self@[i as int].0);
                assert(entries@.last().1@ == self@[i as int].1);
                assert(m1.len() == i + 1);
                assert(m1[i as int] == self@[i as int]);
                assert forall|j: int| 0 <= j < i implies m1[j] == #[trigger] self@[j] by {
                    assert(m0[j] == self@.take(i as int)[j]);
                    assert(m1[j] == (entries@[j].0@, entries@[j].1@));
                    assert(m0[j] == (old_entries[j].0@, old_entries[j].1@));
                    assert(entries@[j] == old_entries[j]);
                }
                assert(m1 =~~= self@.take(i + 1));
            }
            i = i + 1;
        }
        let r = StrMap { entries };
        proof {
            assert(self@.take(n as int) =~= self@);
            assert(r@ == self@);
        }
        r
    }
}

impl PartialEq for StrMap {
    fn eq(&self, other: &StrMap) -> (r: bool) {
        let n = self.entries.len();
        if n != other.entries.len() {
            proof {
                assert(self@.len() != other@.len());
            }
            return false;
        }
        let mut i: usize = 0;
        while i < n
            invariant
                i <= n,
                n == self.entries@.len(),
                n == other.entries@.len(),
                forall|j: int| 0 <= j < i ==> self@[j] == other@[j],
            decreases n - i,
        {
            if !(self.entries[i].0 == other.entries[i].0) || !(self.entries[i].1
                == other.entries[i].1) {
                proof {
                    assert(self@[i as int] != other@[i as int]);
                }
                return false;
            }
            i = i + 1;
        }
        proof {
            assert(self@ =~= other@);
        }
        true
    }
}

impl vstd::std_specs::cmp::PartialEqSpecImpl for StrMap {
    open spec fn obeys_eq_spec() -> bool {
        true
    }

    open spec fn eq_spec(&self, other: &StrMap) -> bool {
        self@ == other@
    }
}

/// If no entry before position `i` carries the key and the entry at `i`
/// does, lookup returns that entry's value.
proof fn lemma_sm_get_first_match(s: EntrySeq, k: Seq<char>, i: int)
    requires
        0 <= i < s.len(),
        s[i].0 == k,
        forall|j: int| 0 <= j < i ==> (#[trigger] s[j]).0 != k,
    ensures
        sm_get(s, k) == Some(s[i].1),
    decreases s.len(),
{
    if i > 0 {
        assert(forall|j: int|
            0 <= j < i - 1 ==> (#[trigger] s.drop_first()[j]).0 == s[j + 1].0 && s[j + 1].0 != k);
        lemma_sm_get_first_match(s.drop_first(), k, i - 1);
        assert(s.drop_first()[i - 1] == s[i]);
    }
}

/// Inserting at the position found by the sorted scan is the same as the
/// recursive sorted insertion.
proof fn lemma_sm_insert_at(s: EntrySeq, k: Seq<char>, v: Seq<char>, i: int)
    requires
        sm_wf(s),
        0 <= i <= s.len(),
        forall|j: int| 0 <= j < i ==> lex_lt((#[trigger] s[j]).0, k),
        i < s.len() ==> !lex_lt(s[i].0, k),
    ensures
        i < s.len() && s[i].0 == k ==> sm_insert(s, k, v) =~= s.subrange(0, i) + seq![(k, v)]
            + s.skip(i + 1),
        !(i < s.len() && s[i].0 == k) ==> sm_insert(s, k, v) =~= s.subrange(0, i) + seq![(k, v)]
            + s.skip(i),
    decreases s.len(),
{
    if s.len() == 0 {
        assert(s.subrange(0, 0) =~= Seq::<(Seq<char>, Seq<char>)>::empty());
        assert(s.skip(0) =~= Seq::<(Seq<char>, Seq<char>)>::empty());
    } else if i == 0 {
        if s[0].0 == k {
            assert(s.subrange(0, 0) + seq![(k, v)] + s.skip(1) =~= seq![(k, v)] + s.drop_first());
        } else {
            lemma_lex_lt_total(k, s[0].0);
            assert(lex_lt(k, s[0].0));
            assert(s.subrange(0, 0) + seq![(k, v)] + s.skip(0) =~= seq![(k, v)] + s);
        }
    } else {
        // i > 0: the head is below k, so insertion recurses into the tail.
        assert(lex_lt(s[0].0, k));
        lemma_lex_lt_irrefl(s[0].0, k);
        lemma_lex_lt_total(k, s[0].0);
        assert(!lex_lt(k, s[0].0));
        assert(s[0].0 != k);
        lemma_sm_wf_drop(s);
        let t = s.drop_first();
        assert(forall|j: int| 0 <= j < i - 1 ==> (#[trigger] t[j]) == s[j + 1]);
        assert(i - 1 < t.len() ==> t[i - 1] == s[i]);
        lemma_sm_insert_at(t, k, v, i - 1);
        assert(t.subrange(0, i - 1) =~= s.subrange(1, i));
        if i < s.len() && s[i].0 == k {
            assert(t.skip(i) =~= s.skip(i + 1));
            assert(seq![s[0]] + (t.subrange(0, i - 1) + seq![(k, v)] + t.skip(i)) =~= s.subrange(
                0,
                i,
            ) + seq![(k, v)] + s.skip(i + 1));
        } else {
            assert(t.skip(i - 1) =~= s.skip(i));
            assert(seq![s[0]] + (t.subrange(0, i - 1) + seq![(k, v)] + t.skip(i - 1)) =~= s.subrange(
                0,
                i,
            ) + seq![(k, v)] + s.skip(i));
        }
    }
}

} // verus!
