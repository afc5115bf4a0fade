use docker_vhoster::resolver::{container_config_to_vhost_names, default_hostname, resolve_vhosts, split_commas_exec};

fn strings(v: &[&str]) -> Vec<String> {
    v.iter().map(|s| s.to_string()).collect()
}

#[test]
fn resolver_default_strips_leading_slash() {
    let env = strings(&["PATH=/usr/bin", "OTHER=x"]);
    assert_eq!(resolve_vhosts("/myapp", &env, "VIRTUAL_HOST"), strings(&["myapp.local"]));
}

#[test]
fn resolver_default_without_slash() {
    assert_eq!(resolve_vhosts("web", &Vec::new(), "VIRTUAL_HOST,ETC_HOST"), strings(&["web.local"]));
}

#[test]
fn default_hostname_strips_one_slash_only() {
    assert_eq!(default_hostname("//x"), "/x.local");
    assert_eq!(default_hostname(""), ".local");
}

#[test]
fn resolver_multi_value_keeps_order() {
    let env = strings(&["VIRTUAL_HOST=a.local,b.local"]);
    assert_eq!(resolve_vhosts("/c", &env, "VIRTUAL_HOST"), strings(&["a.local", "b.local"]));
}

#[test]
fn resolver_collects_variable_after_variable() {
    let env = strings(&["ETC_HOST=e.local", "VIRTUAL_HOST=v1.local", "VIRTUAL_HOST=v2.local"]);
    assert_eq!(
        resolve_vhosts("/c", &env, "VIRTUAL_HOST,ETC_HOST"),
        strings(&["v1.local", "v2.local", "e.local"])
    );
}

#[test]
fn resolver_needs_exact_key() {
    let env = strings(&["VIRTUAL_HOST_X=x.local", "XVIRTUAL_HOST=y.local", "VIRTUAL_HOST"]);
    assert_eq!(resolve_vhosts("/app", &env, "VIRTUAL_HOST"), strings(&["app.local"]));
}

#[test]
fn resolver_empty_value_falls_back() {
    let env = strings(&["VIRTUAL_HOST="]);
    assert_eq!(resolve_vhosts("/app", &env, "VIRTUAL_HOST"), strings(&["app.local"]));
}

#[test]
fn resolver_tokens_are_verbatim() {
    let env = strings(&["VIRTUAL_HOST= a.local,,b=c"]);
    assert_eq!(container_config_to_vhost_names("VIRTUAL_HOST", &env), strings(&[" a.local", "", "b=c"]));
}

#[test]
fn config_names_for_missing_variable_are_empty() {
    let env = strings(&["A=1"]);
    assert!(container_config_to_vhost_names("B", &env).is_empty());
}

#[test]
fn split_commas_matches_std_split() {
    for s in ["", "a", "a,b", ",", "a,,b,", "é,ü"] {
        let expected: Vec<String> = s.split(',').map(|x| x.to_string()).collect();
        assert_eq!(split_commas_exec(s), expected);
    }
}
