//! The state resolver: renders every search of a configuration with the
//! configuration's own variable bindings, producing the resolved state used
//! for diffing. Resolution is fail-fast: the first search that does not
//! render aborts the whole resolution.

use vstd::prelude::*;

use crate::config::{Config, ConfigV, SearchV};
use crate::strmap::{sm_insert, sm_wf, EntrySeq, StrMap};
use crate::template::{render, spec_render, RenderErrV, RenderError};

verus! {

/// Why and where a resolution failed.
#[verifier::ext_equal]
pub ghost struct ResolveErrV {
    /// The name of the search whose query failed to render.
    pub search: Seq<char>,
    pub err: RenderErrV,
}

/// Executable resolution failure; its view is `ResolveErrV`.
#[derive(Debug)]
pub struct ResolveError {
    pub search: String,
    pub err: RenderError,
}

impl View for ResolveError {
    type V = ResolveErrV;

    open spec fn view(&self) -> ResolveErrV {
        ResolveErrV { search: self.search@, err: self.err@ }
    }
}

/// Resolution of the searches from position `i` on, with `acc` holding the
/// searches resolved so far; a duplicated name is last-write-wins.
pub open spec fn spec_resolve_from(
    searches: Seq<SearchV>,
    i: int,
    vars: EntrySeq,
    acc: EntrySeq,
) -> Result<EntrySeq, ResolveErrV>
    decreases searches.len() - i,
{
    if i < 0 || i >= searches.len() {
        Ok(acc)
    } else {
        match spec_render(searches[i].query, vars) {
            Err(e) => Err(ResolveErrV { search: searches[i].name, err: e }),
            Ok(r) => spec_resolve_from(searches, i + 1, vars, sm_insert(acc, searches[i].name, r)),
        }
    }
}

/// The resolved state of a configuration: each search's name bound to its
/// fully rendered query text.
pub open spec fn spec_resolve(c: ConfigV) -> Result<EntrySeq, ResolveErrV> {
    spec_resolve_from(c.searches, 0, c.vars, Seq::empty())
}

/// Render every search of `cfg` with `cfg`'s own bindings. Returns the
/// resolved state, sorted by search name, or the first failure.
pub fn resolve_searches(cfg: &Config) -> (r: Result<StrMap, ResolveError>)
    requires
        cfg.wf(),
    ensures
        match r {
            Ok(m) => spec_resolve(cfg@) == Ok::<EntrySeq, ResolveErrV>(m@) && m.wf(),
            Err(e) => spec_resolve(cfg@) == Err::<EntrySeq, ResolveErrV>(e@),
        },
{
    let mut out = StrMap::new();
    let n = cfg.searches.len();
    let mut i: usize = 0;
    while i < n
        invariant
            i <= n,
            n == cfg.searches@.len(),
            cfg.wf(),
            out.wf(),
            spec_resolve(cfg@) == spec_resolve_from(cfg@.searches, i as int, cfg@.vars, out@),
        decreases n - i,
    {
        let s = &cfg.searches[i];
        proof {
            assert(cfg@.searches[i as int] == s@);
        }
        match render(s.query.as_str(), &cfg.vars) {
            Err(e) => {
                return Err(ResolveError { search: s.name.clone(), err: e });
            },
            Ok(rendered) => {
                out.insert(s.name.clone(), rendered);
            },
        }
        i = i + 1;
    }
    Ok(out)
}

} // verus!
