use vstd::prelude::*;
use vstd::string::StringExecFns;
use crate::sort::clone_string;

verus! {

/// Which profile receives persisted overrides: an explicit override wins,
/// else the profile already selected in the configuration, else none — the
/// top-level keys are written then.
pub fn effective_profile(explicit: Option<String>, configured: Option<String>) -> (r: Option<
    String,
>)
    ensures
        explicit is Some ==> r == explicit,
        explicit is None ==> r == configured,
{
    match explicit {
        Some(p) => Some(p),
        None => configured,
    }
}

/// Root override key segments at the chosen profile's table. Segments that
/// already start at `profiles` are written as given; with no profile the
/// segments stay untouched.
pub fn override_segments(profile: Option<&String>, segments: Vec<String>) -> (r: Vec<String>)
    ensures
        match profile {
            Some(name) => {
                if segments.deep_view().len() > 0 && segments.deep_view()[0] == "profiles"@ {
                    r.deep_view() == segments.deep_view()
                } else {
                    r.deep_view() == seq!["profiles"@, name@] + segments.deep_view()
                }
            },
            None => r.deep_view() == segments.deep_view(),
        },
{
    let name = match profile {
        Some(n) => n,
        None => { return segments },
    };
    let profiles_key = String::from_str("profiles");
    if segments.len() > 0 && segments[0] == profiles_key {
        proof {
            assert(segments.deep_view()[0] == segments@[0]@);
        }
        return segments;
    }
    let ghost segv = segments.deep_view();
    let mut out: Vec<String> = Vec::new();
    out.push(profiles_key);
    out.push(clone_string(name));
    let mut rest = segments;
    out.append(&mut rest);
    proof {
        assert(out.deep_view() =~~= seq!["profiles"@, name@] + segv);
    }
    out
}

} // verus!
