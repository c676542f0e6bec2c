//! The configuration data model: a variable binding table and an ordered
//! list of named saved searches.

use vstd::prelude::*;

use crate::strmap::{sm_wf, EntrySeq, StrMap};

verus! {

/// A named saved search: the name identifies the search, the query is a
/// template that may reference variables as `{{ name }}` placeholders.
#[derive(Debug)]
pub struct Search {
    pub name: String,
    pub query: String,
}

/// Abstract value of a `Search`.
#[verifier::ext_equal]
pub ghost struct SearchV {
    pub name: Seq<char>,
    pub query: Seq<char>,
}

impl View for Search {
    type V = SearchV;

    open spec fn view(&self) -> SearchV {
        SearchV { name: self.name@, query: self.query@ }
    }
}

impl Search {
    pub fn new(name: String, query: String) -> (r: Search)
        ensures
            r@ == (SearchV { name: name@, query: query@ }),
    {
        Search { name, query }
    }
}

impl Clone for Search {
    fn clone(&self) -> (r: Search)
        ensures
            r@ == self@,
    {
        Search { name: self.name.clone(), query: self.query.clone() }
    }
}

impl PartialEq for Search {
    fn eq(&self, other: &Search) -> (r: bool) {
        self.name == other.name && self.query == other.query
    }
}

impl vstd::std_specs::cmp::PartialEqSpecImpl for Search {
    open spec fn obeys_eq_spec() -> bool {
        true
    }

    open spec fn eq_spec(&self, other: &Search) -> bool {
        self@ == other@
    }
}

/// Abstract value of a sequence of searches.
pub open spec fn searches_view(s: Seq<Search>) -> Seq<SearchV> {
    s.map_values(|x: Search| x@)
}

/// A configuration: variable bindings plus the authored or fetched list of
/// saved searches, in its original order.
#[derive(Debug)]
pub struct Config {
    pub vars: StrMap,
    pub searches: Vec<Search>,
}

/// Abstract value of a `Config`.
#[verifier::ext_equal]
pub ghost struct ConfigV {
    pub vars: EntrySeq,
    pub searches: Seq<SearchV>,
}

impl View for Config {
    type V = ConfigV;

    open spec fn view(&self) -> ConfigV {
        ConfigV { vars: self.vars@, searches: searches_view(self.searches@) }
    }
}

impl Config {
    /// The variable table is sorted by key.
    pub open spec fn wf(&self) -> bool {
        sm_wf(self@.vars)
    }

    /// Decide well-formedness, for callers outside verified code.
    pub fn is_well_formed(&self) -> (r: bool)
        ensures
            r == self.wf(),
    {
        self.vars.is_sorted()
    }
}

impl Default for Config {
    fn default() -> (r: Config)
        ensures
            r@.vars =~= Seq::<(Seq<char>, Seq<char>)>::empty(),
            r@.searches =~= Seq::<SearchV>::empty(),
            r.wf(),
    {
        let r = Config { vars: StrMap::new(), searches: Vec::new() };
        proof {
            assert(r@.searches =~= Seq::<SearchV>::empty());
        }
        r
    }
}

impl PartialEq for Config {
    fn eq(&self, other: &Config) -> (r: bool) {
        if !(self.vars == other.vars) {
            return false;
        }
        let n = self.searches.len();
        if n != other.searches.len() {
            proof {
                assert(self@.searches.len() != other@.searches.len());
            }
            return false;
        }
        let mut i: usize = 0;
        while i < n
            invariant
                i <= n,
                n == self.searches@.len(),
                n == other.searches@.len(),
                self@.vars == other@.vars,
                forall|j: int| 0 <= j < i ==> self@.searches[j] == other@.searches[j],
            decreases n - i,
        {
            if !(self.searches[i] == other.searches[i]) {
                proof {
                    assert(self@.searches[i as int] != other@.searches[i as int]);
                }
                return false;
            }
            i = i + 1;
        }
        proof {
            assert(self@.searches =~= other@.searches);
            assert(self@ =~= other@);
        }
        true
    }
}

impl vstd::std_specs::cmp::PartialEqSpecImpl for Config {
    open spec fn obeys_eq_spec() -> bool {
        true
    }

    open spec fn eq_spec(&self, other: &Config) -> bool {
        self@ == other@
    }
}

} // verus!
