//! What the daemon reports of the container runtime it connected to.

use vstd::prelude::*;

verus! {

/// A component of the runtime, by name, with its version.
pub struct VersionComponent {
    pub name: String,
    pub version: String,
}

/// The version of the first component named `Engine` among `comps`, else
/// `missing`.
pub open spec fn engine_version_of(comps: Seq<(Seq<char>, Seq<char>)>, missing: Seq<char>) -> Seq<char>
    decreases comps.len(),
{
    if comps.len() == 0 {
        missing
    } else if comps[0].0 == "Engine"@ {
        comps[0].1
    } else {
        engine_version_of(comps.skip(1), missing)
    }
}

/// The name and version of each component, in order.
pub open spec fn components_view(v: Seq<VersionComponent>) -> Seq<(Seq<char>, Seq<char>)> {
    v.map_values(|c: VersionComponent| (c.name@, c.version@))
}

/// The name of the runtime's platform, or `missing_str` where it gave none.
pub fn get_platform_name(platform: Option<String>, missing_str: &str) -> (r: String)
    ensures
        r@ == (match platform {
            Some(p) => p@,
            None => missing_str@,
        }),
{
    match platform {
        Some(p) => p,
        None => missing_str.to_owned(),
    }
}

/// The version of the runtime's first `Engine` component, or `missing_str`.
pub fn find_engine_ver(comps: &Vec<VersionComponent>, missing_str: &str) -> (r: String)
    ensures
        r@ == engine_version_of(components_view(comps@), missing_str@),
{
    let ghost cv = components_view(comps@);
    let engine = "Engine".to_owned();
    let mut i: usize = 0;
    assert(cv.skip(0) =~= cv);
    while i < comps.len()
        invariant
            i <= comps@.len(),
            cv == components_view(comps@),
            engine@ == "Engine"@,
            engine_version_of(cv, missing_str@) == engine_version_of(cv.skip(i as int), missing_str@),
        decreases comps.len() - i,
    {
        assert(cv.skip(i as int)[0] == cv[i as int]);
        if comps[i].name == engine {
            return comps[i].version.clone();
        }
        assert(cv.skip(i as int).skip(1) =~= cv.skip(i + 1));
        i = i + 1;
    }
    missing_str.to_owned()
}

/// The version of the runtime's engine, or `missing_str` where the runtime
/// listed no components or none named `Engine`.
pub fn get_engine_ver(components: Option<Vec<VersionComponent>>, missing_str: &str) -> (r: String)
    ensures
        r@ == (match components {
            Some(c) => engine_version_of(components_view(c@), missing_str@),
            None => missing_str@,
        }),
{
    match components {
        Some(comps) => find_engine_ver(&comps, missing_str),
        None => missing_str.to_owned(),
    }
}

} // verus!
