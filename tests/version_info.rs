use docker_vhoster::version_info::{find_engine_ver, get_engine_ver, get_platform_name, VersionComponent};

fn comp(name: &str, version: &str) -> VersionComponent {
    VersionComponent { name: name.to_string(), version: version.to_string() }
}

#[test]
fn platform_name_or_missing() {
    assert_eq!(get_platform_name(Some("Docker Engine - Community".to_string()), "<Unknown>"), "Docker Engine - Community");
    assert_eq!(get_platform_name(None, "<Unknown>"), "<Unknown>");
}

#[test]
fn engine_version_found() {
    let comps = vec![comp("containerd", "1.6.0"), comp("Engine", "24.0.5"), comp("Engine", "0")];
    assert_eq!(find_engine_ver(&comps, "<Unknown>"), "24.0.5");
    assert_eq!(get_engine_ver(Some(comps), "<Unknown>"), "24.0.5");
}

#[test]
fn engine_version_missing() {
    assert_eq!(find_engine_ver(&vec![comp("runc", "1.1")], "<Unknown>"), "<Unknown>");
    assert_eq!(get_engine_ver(None, "<Unknown>"), "<Unknown>");
    assert_eq!(get_engine_ver(Some(Vec::new()), "?"), "?");
}
