//! The template renderer: substitutes `{{ name }}` placeholders in a query
//! string with the values of a variable binding table. There is no control
//! flow, no nesting and no escaping; a placeholder whose variable is not
//! bound fails the whole render.

use vstd::prelude::*;

use crate::strmap::{sm_get, EntrySeq, StrMap};
use crate::strutil::{exec_is_space, is_space, push_char};

verus! {

/// Why a render failed.
#[verifier::ext_equal]
pub ghost enum RenderErrV {
    /// A `{{` with no closing `}}` after it.
    Unclosed,
    /// The text between `{{` and `}}` is empty or contains whitespace.
    BadName,
    /// The placeholder names a variable absent from the binding table.
    Unresolved { var: Seq<char> },
}

/// Executable render failure; its view is `RenderErrV`.
#[derive(Debug)]
pub enum RenderError {
    Unclosed,
    BadName,
    Unresolved(String),
}

impl View for RenderError {
    type V = RenderErrV;

    open spec fn view(&self) -> RenderErrV {
        match self {
            RenderError::Unclosed => RenderErrV::Unclosed,
            RenderError::BadName => RenderErrV::BadName,
            RenderError::Unresolved(v) => RenderErrV::Unresolved { var: v@ },
        }
    }
}

/// The position of the first `}}` at or after `i`, if any.
pub open spec fn find_close(q: Seq<char>, i: int) -> Option<int>
    decreases q.len() - i,
{
    if i < 0 || i + 2 > q.len() {
        None
    } else if q[i] == '}' && q[i + 1] == '}' {
        Some(i)
    } else {
        find_close(q, i + 1)
    }
}

pub proof fn lemma_find_close_bounds(q: Seq<char>, i: int)
    ensures
        find_close(q, i) matches Some(j) ==> i <= j && j + 2 <= q.len() && q[j] == '}' && q[j + 1]
            == '}',
    decreases q.len() - i,
{
    if !(i < 0 || i + 2 > q.len()) && !(q[i] == '}' && q[i + 1] == '}') {
        lemma_find_close_bounds(q, i + 1);
    }
}

/// Leading whitespace dropped.
pub open spec fn trim_left(s: Seq<char>) -> Seq<char>
    decreases s.len(),
{
    if s.len() > 0 && is_space(s[0]) {
        trim_left(s.drop_first())
    } else {
        s
    }
}

/// Trailing whitespace dropped.
pub open spec fn trim_right(s: Seq<char>) -> Seq<char>
    decreases s.len(),
{
    if s.len() > 0 && is_space(s[s.len() - 1]) {
        trim_right(s.drop_last())
    } else {
        s
    }
}

/// Surrounding whitespace dropped.
pub open spec fn trim(s: Seq<char>) -> Seq<char> {
    trim_right(trim_left(s))
}

pub open spec fn has_space(s: Seq<char>) -> bool {
    exists|k: int| 0 <= k < s.len() && is_space(#[trigger] s[k])
}

/// The rendering of `q` from position `i` on: literal characters are kept,
/// `{{ name }}` placeholders become the value bound to `name`.
pub open spec fn spec_render_from(q: Seq<char>, i: int, vars: EntrySeq) -> Result<
    Seq<char>,
    RenderErrV,
>
    decreases q.len() - i,
    via spec_render_from_dec
{
    if i < 0 || i >= q.len() {
        Ok(Seq::empty())
    } else if i + 1 < q.len() && q[i] == '{' && q[i + 1] == '{' {
        match find_close(q, i + 2) {
            None => Err(RenderErrV::Unclosed),
            Some(j) => {
                let name = trim(q.subrange(i + 2, j));
                if name.len() == 0 || has_space(name) {
                    Err(RenderErrV::BadName)
                } else {
                    match sm_get(vars, name) {
                        None => Err(RenderErrV::Unresolved { var: name }),
                        Some(v) => match spec_render_from(q, j + 2, vars) {
                            Ok(r) => Ok(v + r),
                            Err(e) => Err(e),
                        },
                    }
                }
            },
        }
    } else {
        match spec_render_from(q, i + 1, vars) {
            Ok(r) => Ok(seq![q[i]] + r),
            Err(e) => Err(e),
        }
    }
}

#[via_fn]
proof fn spec_render_from_dec(q: Seq<char>, i: int, vars: EntrySeq) {
    lemma_find_close_bounds(q, i + 2);
}

/// The rendering of a whole query against a binding table.
pub open spec fn spec_render(q: Seq<char>, vars: EntrySeq) -> Result<Seq<char>, RenderErrV> {
    spec_render_from(q, 0, vars)
}

/// A scan that saw no `}}` before `j` and sees one at `j` has found the
/// first one.
proof fn lemma_find_close_at(q: Seq<char>, m: int, j: int)
    requires
        0 <= m <= j,
        j + 2 <= q.len(),
        q[j] == '}' && q[j + 1] == '}',
        forall|k: int| m <= k < j ==> !(q[k] == '}' && #[trigger] q[k + 1] == '}'),
    ensures
        find_close(q, m) == Some(j),
    decreases j - m,
{
    if m < j {
        assert(!(q[m] == '}' && q[m + 1] == '}'));
        lemma_find_close_at(q, m + 1, j);
    }
}

/// A scan that reached the end without seeing `}}` proves there is none.
proof fn lemma_find_close_none(q: Seq<char>, m: int)
    requires
        0 <= m,
        forall|k: int| m <= k && k + 2 <= q.len() ==> !(q[k] == '}' && #[trigger] q[k + 1] == '}'),
    ensures
        find_close(q, m) == None::<int>,
    decreases q.len() - m,
{
    if m + 2 <= q.len() {
        lemma_find_close_none(q, m + 1);
    }
}

/// An all-space prefix before `a`, with `a` itself not a space (or the
/// end), pins down `trim_left`.
pub proof fn lemma_trim_left_at(s: Seq<char>, a: int)
    requires
        0 <= a <= s.len(),
        forall|k: int| 0 <= k < a ==> is_space(#[trigger] s[k]),
        a < s.len() ==> !is_space(s[a]),
    ensures
        trim_left(s) =~= s.skip(a),
    decreases a,
{
    if a == 0 {
        assert(trim_left(s) =~= s.skip(0));
    } else {
        assert(is_space(s[0]));
        let t = s.drop_first();
        assert(forall|k: int| 0 <= k < a - 1 ==> (#[trigger] t[k]) == s[k + 1]);
        lemma_trim_left_at(t, a - 1);
        assert(t.skip(a - 1) =~= s.skip(a));
    }
}

/// An all-space suffix from `b` on, with `b - 1` not a space (or the
/// start), pins down `trim_right`.
pub proof fn lemma_trim_right_at(s: Seq<char>, b: int)
    requires
        0 <= b <= s.len(),
        forall|k: int| b <= k < s.len() ==> is_space(#[trigger] s[k]),
        b > 0 ==> !is_space(s[b - 1]),
    ensures
        trim_right(s) =~= s.take(b),
    decreases s.len() - b,
{
    if b == s.len() {
        assert(trim_right(s) =~= s.take(b));
    } else {
        assert(is_space(s[s.len() - 1]));
        let t = s.drop_last();
        lemma_trim_right_at(t, b);
        assert(t.take(b) =~= s.take(b));
    }
}

/// Render `q` against `vars`, replacing each `{{ name }}` placeholder with
/// the bound value.
pub fn render(q: &str, vars: &StrMap) -> (r: Result<String, RenderError>)
    ensures
        match r {
            Ok(s) => spec_render(q@, vars@) == Ok::<Seq<char>, RenderErrV>(s@),
            Err(e) => spec_render(q@, vars@) == Err::<Seq<char>, RenderErrV>(e@),
        },
{
    let n = q.unicode_len();
    let mut out = String::new();
    let mut i: usize = 0;
    proof {
        match spec_render_from(q@, 0, vars@) {
            Ok(r) => {
                assert(out@ + r =~= r);
            },
            Err(_) => {},
        }
    }
    loop
        invariant
            i <= n,
            n == q@.len(),
            spec_render(q@, vars@) == match spec_render_from(q@, i as int, vars@) {
                Ok(r) => Ok::<Seq<char>, RenderErrV>(out@ + r),
                Err(e) => Err::<Seq<char>, RenderErrV>(e),
            },
        decreases n - i,
    {
        if i >= n {
            proof {
                assert(out@ + Seq::<char>::empty() =~= out@);
            }
            return Ok(out);
        }
        let c = q.get_char(i);
        if c == '{' && i + 1 < n && q.get_char(i + 1) == '{' {
            // Scan for the closing `}}`.
            let mut j: usize = i + 2;
            let mut found = false;
            loop
                invariant_except_break
                    !found,
                invariant
                    i + 2 <= j <= n,
                    n == q@.len(),
                    forall|k: int|
                        i + 2 <= k < j && k + 2 <= n ==> !(q@[k] == '}' && #[trigger] q@[k + 1]
                            == '}'),
                ensures
                    i + 2 <= j <= n,
                    forall|k: int|
                        i + 2 <= k < j && k + 2 <= n ==> !(q@[k] == '}' && #[trigger] q@[k + 1]
                            == '}'),
                    found ==> j + 2 <= n && q@[j as int] == '}' && q@[j + 1] == '}',
                    !found ==> j + 2 > n,
                decreases n - j,
            {
                if j >= n {
                    break;
                }
                if j + 1 >= n {
                    break;
                }
                if q.get_char(j) == '}' && q.get_char(j + 1) == '}' {
                    found = true;
                    break;
                }
                j = j + 1;
            }
            if !found {
                proof {
                    lemma_find_close_none(q@, i + 2);
                }
                return Err(RenderError::Unclosed);
            }
            proof {
                lemma_find_close_at(q@, i + 2, j as int);
            }
            // Trim the placeholder's interior.
            let ghost inner = q@.subrange(i + 2, j as int);
            let mut a: usize = i + 2;
            while a < j && exec_is_space(q.get_char(a))
                invariant
                    i + 2 <= a <= j <= n,
                    n == q@.len(),
                    forall|k: int| i + 2 <= k < a ==> is_space(#[trigger] q@[k]),
                decreases j - a,
            {
                a = a + 1;
            }
            let mut b: usize = j;
            while b > a && exec_is_space(q.get_char(b - 1))
                invariant
                    a <= b <= j <= n,
                    n == q@.len(),
                    forall|k: int| b <= k < j ==> is_space(#[trigger] q@[k]),
                decreases b - a,
            {
                b = b - 1;
            }
            proof {
                assert(forall|k: int|
                    0 <= k < a - (i + 2) ==> (#[trigger] inner[k]) == q@[k + i + 2]);
                lemma_trim_left_at(inner, a - (i + 2));
                let tl = inner.skip(a - (i + 2));
                assert(forall|k: int| 0 <= k < tl.len() ==> (#[trigger] tl[k]) == q@[k + a]);
                lemma_trim_right_at(tl, b - a);
                assert(trim(inner) =~= tl.take(b - a));
            }
            // The trimmed interior: empty or spaced names are malformed.
            if b == a {
                proof {
                    assert(q@[i as int] == '{' && q@[i + 1] == '{');
                    assert(find_close(q@, i + 2) == Some(j as int));
                    assert(trim(q@.subrange(i + 2, j as int)).len() == 0);
                    assert(spec_render_from(q@, i as int, vars@) == Err::<
                        Seq<char>,
                        RenderErrV,
                    >(RenderErrV::BadName));
                }
                return Err(RenderError::BadName);
            }
            let mut name = String::new();
            let mut p: usize = a;
            while p < b
                invariant
                    a <= p <= b <= n,
                    n == q@.len(),
                    name@ =~= q@.subrange(a as int, p as int),
                decreases b - p,
            {
                let ch = q.get_char(p);
                push_char(&mut name, ch);
                proof {
                    assert(name@ =~= q@.subrange(a as int, p + 1));
                }
                p = p + 1;
            }
            proof {
                assert(name@ =~= trim(inner));
            }
            let mut sp: usize = 0;
            let namelen = b - a;
            let mut spaced = false;
            while sp < namelen
                invariant
                    sp <= namelen,
                    namelen == name@.len(),
                    spaced == exists|k: int| 0 <= k < sp && is_space(#[trigger] name@[k]),
                decreases namelen - sp,
            {
                let ch = name.as_str().get_char(sp);
                if exec_is_space(ch) {
                    spaced = true;
                }
                sp = sp + 1;
            }
            if spaced {
                return Err(RenderError::BadName);
            }
            proof {
                assert(!has_space(name@));
            }
            match vars.get(&name) {
                None => {
                    return Err(RenderError::Unresolved(name));
                },
                Some(v) => {
                    let ghost out0 = out@;
                    out.append(v.as_str());
                    proof {
                        match spec_render_from(q@, j + 2, vars@) {
                            Ok(r) => {
                                assert(out0 + (v@ + r) =~= out@ + r);
                            },
                            Err(_) => {},
                        }
                    }
                    i = j + 2;
                },
            }
        } else {
            let ghost out0 = out@;
            push_char(&mut out, c);
            proof {
                match spec_render_from(q@, i + 1, vars@) {
                    Ok(r) => {
                        assert(out0 + (seq![c] + r) =~= out@ + r);
                    },
                    Err(_) => {},
                }
            }
            i = i + 1;
        }
    }
}

} // verus!
