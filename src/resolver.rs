//! Derivation of a container's virtual hostnames from its environment.

use vstd::prelude::*;
use crate::registry::strings_view;
use crate::text::{chars_of, matches_at, occurs_at};

verus! {

/// The pieces of `s` between commas, in order; text without a comma is one
/// piece, and the empty text is one empty piece.
pub open spec fn split_commas(s: Seq<char>) -> Seq<Seq<char>>
    decreases s.len(),
{
    if s.len() == 0 {
        seq![Seq::empty()]
    } else {
        let prev = split_commas(s.drop_last());
        if s.last() == ',' {
            prev.push(Seq::empty())
        } else {
            prev.update(prev.len() - 1, prev.last().push(s.last()))
        }
    }
}

/// Splitting always gives at least one piece.
proof fn lemma_split_commas_nonempty(s: Seq<char>)
    ensures
        split_commas(s).len() >= 1,
    decreases s.len(),
{
    if s.len() > 0 {
        lemma_split_commas_nonempty(s.drop_last());
    }
}

/// The pieces of `s` between commas, in order.
pub fn split_commas_exec(s: &str) -> (r: Vec<String>)
    ensures
        strings_view(r@) == split_commas(s@),
{
    let cs = chars_of(s);
    let mut r: Vec<String> = Vec::new();
    let mut start: usize = 0;
    let mut i: usize = 0;
    assert(s@.take(0) =~= Seq::<char>::empty());
    assert(strings_view(r@).push(s@.subrange(0, 0)) =~= split_commas(s@.take(0)));
    while i < cs.len()
        invariant
            start <= i <= cs@.len(),
            cs@ == s@,
            strings_view(r@).push(s@.subrange(start as int, i as int)) == split_commas(s@.take(i as int)),
        decreases cs.len() - i,
    {
        let ghost before = strings_view(r@);
        assert(s@.take(i + 1).drop_last() =~= s@.take(i as int));
        assert(s@.take(i + 1).last() == s@[i as int]);
        proof {
            lemma_split_commas_nonempty(s@.take(i as int));
        }
        if cs[i] == ',' {
            let piece = s.substring_char(start, i).to_owned();
            r.push(piece);
            assert(strings_view(r@) =~= before.push(s@.subrange(start as int, i as int)));
            start = i + 1;
            assert(s@.subrange(start as int, i + 1) =~= Seq::<char>::empty());
            assert(split_commas(s@.take(i + 1)) == split_commas(s@.take(i as int)).push(Seq::empty()));
            assert(strings_view(r@).push(s@.subrange(start as int, i + 1)) =~= split_commas(s@.take(i + 1)));
        } else {
            assert(s@.subrange(start as int, i + 1) =~= s@.subrange(start as int, i as int).push(s@[i as int]));
            assert(strings_view(r@).push(s@.subrange(start as int, i + 1)) =~= split_commas(s@.take(i + 1)));
        }
        i = i + 1;
    }
    let ghost before = strings_view(r@);
    let piece = s.substring_char(start, cs.len()).to_owned();
    r.push(piece);
    assert(strings_view(r@) =~= before.push(s@.subrange(start as int, i as int)));
    assert(s@.take(i as int) =~= s@);
    r
}

/// `name` holds no `=`.
pub open spec fn no_equals(name: Seq<char>) -> bool {
    forall|k: int| 0 <= k < name.len() ==> name[k] != '='
}

/// The value that the environment entry `entry` (`KEY=VALUE`) gives the
/// variable `name`, if its key is `name`.
pub open spec fn env_value(entry: Seq<char>, name: Seq<char>) -> Option<Seq<char>> {
    if no_equals(name) && entry.len() > name.len() && entry.take(name.len() as int) == name
        && entry[name.len() as int] == '=' {
        Some(entry.skip(name.len() + 1int))
    } else {
        None
    }
}

/// The hostnames that a value lists: none for an empty value, else its pieces
/// between commas, taken as they stand.
pub open spec fn value_hostnames(v: Seq<char>) -> Seq<Seq<char>> {
    if v.len() == 0 {
        Seq::empty()
    } else {
        split_commas(v)
    }
}

/// The hostnames that the variable `name` lists over the environment `env`,
/// entry after entry.
pub open spec fn var_hostnames(name: Seq<char>, env: Seq<Seq<char>>) -> Seq<Seq<char>>
    decreases env.len(),
{
    if env.len() == 0 {
        Seq::empty()
    } else {
        var_hostnames(name, env.drop_last()) + match env_value(env.last(), name) {
            Some(v) => value_hostnames(v),
            None => Seq::empty(),
        }
    }
}

/// The hostnames that the variables `names` list over `env`, variable after
/// variable.
pub open spec fn vars_hostnames(names: Seq<Seq<char>>, env: Seq<Seq<char>>) -> Seq<Seq<char>>
    decreases names.len(),
{
    if names.len() == 0 {
        Seq::empty()
    } else {
        vars_hostnames(names.drop_last(), env) + var_hostnames(names.last(), env)
    }
}

/// The display name without one leading `/`.
pub open spec fn strip_leading_slash(name: Seq<char>) -> Seq<char> {
    if name.len() > 0 && name[0] == '/' {
        name.skip(1)
    } else {
        name
    }
}

/// The hostname of a container that declares none: its display name without
/// the leading `/`, followed by `.local`.
pub open spec fn default_hostname_spec(name: Seq<char>) -> Seq<char> {
    strip_leading_slash(name) + ".local"@
}

/// The hostnames of a container with display name `name` and environment
/// `env`, for the recognised variables listed in `var_names` (comma-separated).
pub open spec fn resolved_hostnames(
    name: Seq<char>,
    env: Seq<Seq<char>>,
    var_names: Seq<char>,
) -> Seq<Seq<char>> {
    let found = vars_hostnames(split_commas(var_names), env);
    if found.len() == 0 {
        seq![default_hostname_spec(name)]
    } else {
        found
    }
}

/// Whether `name` holds no `=`.
fn has_no_equals(name: &Vec<char>) -> (r: bool)
    ensures
        r == no_equals(name@),
{
    let mut k: usize = 0;
    while k < name.len()
        invariant
            k <= name@.len(),
            forall|j: int| 0 <= j < k ==> name@[j] != '=',
        decreases name.len() - k,
    {
        if name[k] == '=' {
            return false;
        }
        k = k + 1;
    }
    true
}

/// The hostnames that the variable `var_name` lists over the environment
/// entries `env`, in the order of the entries.
pub fn container_config_to_vhost_names(var_name: &str, env: &Vec<String>) -> (r: Vec<String>)
    ensures
        strings_view(r@) == var_hostnames(var_name@, strings_view(env@)),
{
    let name = chars_of(var_name);
    let name_ok = has_no_equals(&name);
    let ghost envs = strings_view(env@);
    let mut r: Vec<String> = Vec::new();
    let mut i: usize = 0;
    assert(envs.take(0) =~= Seq::<Seq<char>>::empty());
    while i < env.len()
        invariant
            i <= env@.len(),
            envs == strings_view(env@),
            name@ == var_name@,
            name_ok == no_equals(name@),
            strings_view(r@) == var_hostnames(var_name@, envs.take(i as int)),
        decreases env.len() - i,
    {
        let entry = env[i].as_str();
        let e = chars_of(entry);
        let ghost before = strings_view(r@);
        assert(envs.take(i + 1).drop_last() =~= envs.take(i as int));
        assert(envs.take(i + 1).last() == entry@);
        if name_ok && e.len() > name.len() && matches_at(&e, 0, &name) && e[name.len()] == '=' {
            assert(e@.take(name@.len() as int) =~= name@) by {
                assert forall|k: int| 0 <= k < name@.len() implies e@[k] == name@[k] by {
                    assert(e@[0 + k] == name@[k]);
                }
            }
            let value = entry.substring_char(name.len() + 1, e.len());
            assert(value@ =~= entry@.skip(name@.len() + 1int));
            if !value.is_empty() {
                let mut toks = split_commas_exec(value);
                let ghost tv = strings_view(toks@);
                r.append(&mut toks);
                assert(strings_view(r@) =~= before + tv);
            }
        } else {
            assert(env_value(entry@, var_name@) is None) by {
                if env_value(entry@, var_name@) is Some {
                    assert(occurs_at(e@, 0, name@)) by {
                        assert forall|k: int| 0 <= k < name@.len() implies #[trigger] e@[0 + k] == name@[k] by {
                            assert(e@.take(name@.len() as int)[k] == e@[k]);
                        }
                    }
                }
            }
        }
        assert(strings_view(r@) =~= var_hostnames(var_name@, envs.take(i + 1)));
        i = i + 1;
    }
    assert(envs.take(i as int) =~= envs);
    r
}

/// The hostname of a container that declares none.
pub fn default_hostname(display_name: &str) -> (r: String)
    ensures
        r@ == default_hostname_spec(display_name@),
{
    let n = display_name.unicode_len();
    let mut r = if n > 0 && display_name.get_char(0) == '/' {
        display_name.substring_char(1, n).to_owned()
    } else {
        display_name.to_owned()
    };
    proof {
        if n > 0 && display_name@[0] == '/' {
            assert(display_name@.subrange(1, n as int) =~= display_name@.skip(1));
        }
    }
    r.append(".local");
    r
}

/// The hostnames of a container with display name `display_name` and
/// environment entries `env`, for the recognised variables that
/// `env_var_names` lists between commas: all the hostnames that those
/// variables list, variable after variable, or else the default hostname.
pub fn resolve_vhosts(display_name: &str, env: &Vec<String>, env_var_names: &str) -> (r: Vec<String>)
    ensures
        strings_view(r@) == resolved_hostnames(display_name@, strings_view(env@), env_var_names@),
        r@.len() >= 1,
{
    let names = split_commas_exec(env_var_names);
    let ghost nv = strings_view(names@);
    let ghost envs = strings_view(env@);
    let mut r: Vec<String> = Vec::new();
    let mut j: usize = 0;
    assert(nv.take(0) =~= Seq::<Seq<char>>::empty());
    while j < names.len()
        invariant
            j <= names@.len(),
            nv == strings_view(names@),
            envs == strings_view(env@),
            strings_view(r@) == vars_hostnames(nv.take(j as int), envs),
        decreases names.len() - j,
    {
        let ghost before = strings_view(r@);
        let mut toks = container_config_to_vhost_names(names[j].as_str(), env);
        let ghost tv = strings_view(toks@);
        r.append(&mut toks);
        assert(nv.take(j + 1).drop_last() =~= nv.take(j as int));
        assert(strings_view(r@) =~= before + tv);
        j = j + 1;
    }
    assert(nv.take(j as int) =~= nv);
    if r.len() == 0 {
        let d = default_hostname(display_name);
        r.push(d);
        assert(strings_view(r@) =~= seq![default_hostname_spec(display_name@)]);
    }
    r
}

} // verus!
