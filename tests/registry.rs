use docker_vhoster::registry::Registry;

fn strings(v: &[&str]) -> Vec<String> {
    v.iter().map(|s| s.to_string()).collect()
}

fn ids(reg: &Registry) -> Vec<String> {
    reg.snapshot().into_iter().map(|r| r.id).collect()
}

#[test]
fn snapshot_is_ordered_by_id() {
    let mut reg = Registry::new();
    reg.upsert("c3".to_string(), strings(&["x"]));
    reg.upsert("c1".to_string(), strings(&["y"]));
    reg.upsert("c2".to_string(), strings(&["z"]));
    reg.upsert("c10".to_string(), strings(&["w"]));
    assert_eq!(ids(&reg), strings(&["c1", "c10", "c2", "c3"]));
}

#[test]
fn upsert_replaces_hostnames() {
    let mut reg = Registry::new();
    reg.upsert("c1".to_string(), strings(&["a.local"]));
    reg.upsert("c1".to_string(), strings(&["b.local", "c.local"]));
    let snap = reg.snapshot();
    assert_eq!(snap.len(), 1);
    assert_eq!(snap[0].id, "c1");
    assert_eq!(snap[0].vhosts, strings(&["b.local", "c.local"]));
}

#[test]
fn upsert_refuses_empty_id() {
    let mut reg = Registry::new();
    assert!(!reg.upsert(String::new(), strings(&["a.local"])));
    assert!(reg.snapshot().is_empty());
}

#[test]
fn registry_holds_ids_whose_last_call_was_upsert() {
    let mut reg = Registry::new();
    reg.upsert("a".to_string(), strings(&["1"]));
    reg.upsert("b".to_string(), strings(&["2"]));
    reg.remove("a");
    reg.upsert("c".to_string(), strings(&["3"]));
    reg.remove("b");
    reg.upsert("b".to_string(), strings(&["4"]));
    reg.remove("d");
    reg.upsert("d".to_string(), strings(&["5"]));
    reg.remove("c");
    assert_eq!(ids(&reg), strings(&["b", "d"]));
    assert!(reg.contains("b"));
    assert!(!reg.contains("a"));
    assert!(!reg.contains("c"));
}

#[test]
fn stop_removes_container() {
    let mut reg = Registry::new();
    reg.upsert("c1".to_string(), strings(&["a.local"]));
    reg.upsert("c2".to_string(), strings(&["b.local"]));
    reg.remove("c1");
    assert!(!reg.contains("c1"));
    assert_eq!(ids(&reg), strings(&["c2"]));
    let block = docker_vhoster::hosts_block::render_block(&reg, "127.0.0.1");
    assert!(!block.contains("a.local"));
    assert!(block.contains("127.0.0.1 b.local\n"));
}

#[test]
fn untracked_stop_leaves_registry() {
    let mut reg = Registry::new();
    reg.upsert("c1".to_string(), strings(&["a.local"]));
    reg.remove("never");
    let snap = reg.snapshot();
    assert_eq!(snap.len(), 1);
    assert_eq!(snap[0].id, "c1");
    assert_eq!(snap[0].vhosts, strings(&["a.local"]));
    let mut empty = Registry::new();
    empty.remove("x");
    assert!(empty.snapshot().is_empty());
}

#[test]
fn snapshot_is_a_copy() {
    let mut reg = Registry::new();
    reg.upsert("c1".to_string(), strings(&["a.local"]));
    let mut snap = reg.snapshot();
    snap[0].vhosts.push("b.local".to_string());
    assert_eq!(reg.snapshot()[0].vhosts, strings(&["a.local"]));
}
