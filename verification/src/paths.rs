//! Resolution of the configuration file's path as a pure function of an
//! explicit environment snapshot: the configuration-home directory is
//! preferred, then a home-directory convention; with neither there is no
//! path.

use vstd::prelude::*;
use vstd::string::*;

verus! {

/// `/feedbinctl/config` as characters.
pub open spec fn rel_under_config_home() -> Seq<char> {
    seq!['/', 'f', 'e', 'e', 'd', 'b', 'i', 'n', 'c', 't', 'l', '/', 'c', 'o', 'n', 'f', 'i', 'g']
}

/// `/.config` as characters.
pub open spec fn rel_dot_config() -> Seq<char> {
    seq!['/', '.', 'c', 'o', 'n', 'f', 'i', 'g']
}

/// The path of the configuration file for a given environment snapshot:
/// under the configuration home when one is set, else under the home
/// directory's `.config`, else none.
pub open spec fn spec_config_path(xdg: Option<Seq<char>>, home: Option<Seq<char>>) -> Option<
    Seq<char>,
> {
    match xdg {
        Some(d) => Some(d + rel_under_config_home()),
        None => match home {
            Some(h) => Some(h + rel_dot_config() + rel_under_config_home()),
            None => None,
        },
    }
}

/// Resolve the configuration file's path from the two environment values
/// the tool consults, in order of preference.
pub fn config_path_from_env(xdg: Option<&str>, home: Option<&str>) -> (r: Option<String>)
    ensures
        match r {
            Some(p) => spec_config_path(
                match xdg {
                    Some(d) => Some(d@),
                    None => None,
                },
                match home {
                    Some(h) => Some(h@),
                    None => None,
                },
            ) == Some(p@),
            None => xdg is None && home is None,
        },
{
    proof {
        reveal_strlit("/feedbinctl/config");
        reveal_strlit("/.config");
        assert("/feedbinctl/config"@ =~= rel_under_config_home());
        assert("/.config"@ =~= rel_dot_config());
    }
    match xdg {
        Some(d) => {
            let mut p = String::from_str(d);
            p.append("/feedbinctl/config");
            Some(p)
        },
        None => match home {
            Some(h) => {
                let mut p = String::from_str(h);
                p.append("/.config");
                p.append("/feedbinctl/config");
                proof {
                    assert(p@ =~= h@ + rel_dot_config() + rel_under_config_home());
                }
                Some(p)
            },
            None => None,
        },
    }
}

} // verus!
