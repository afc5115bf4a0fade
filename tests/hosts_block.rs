use docker_vhoster::hosts_block::{apply, format_vhost_entry, format_vhosts, render_block, updated_hosts_text, END_MARKER, START_MARKER};
use docker_vhoster::registry::{ContainerRecord, Registry};

fn strings(v: &[&str]) -> Vec<String> {
    v.iter().map(|s| s.to_string()).collect()
}

fn block(lines: &str) -> String {
    format!("{}{}{}", START_MARKER, lines, END_MARKER)
}

#[test]
fn apply_appends_when_no_markers() {
    let text = "127.0.0.1 localhost\n";
    let b = block("127.0.0.1 a.local\n");
    let r = apply(text, &b);
    assert_eq!(r, format!("127.0.0.1 localhost\n\n{}", b));
    assert!(r.starts_with(text));
}

#[test]
fn apply_appends_to_empty_file() {
    let b = block("");
    assert_eq!(apply("", &b), format!("\n{}", b));
}

#[test]
fn apply_replaces_existing_block() {
    let old = block("127.0.0.1 old.local\n");
    let text = format!("before\n{}after\n", old);
    let b = block("127.0.0.1 new.local\n");
    assert_eq!(apply(&text, &b), format!("before\n{}after\n", b));
}

#[test]
fn apply_keeps_text_outside_markers() {
    let text = format!("# users\n10.0.0.1 x\n{}\n10.0.0.2 y # trailing", block("1.1.1.1 z.local\n"));
    let b = block("127.0.0.1 q.local\n127.0.0.1 r.local\n");
    let r = apply(&text, &b);
    assert!(r.starts_with("# users\n10.0.0.1 x\n"));
    assert!(r.ends_with("\n10.0.0.2 y # trailing"));
    assert_eq!(r, format!("# users\n10.0.0.1 x\n{}\n10.0.0.2 y # trailing", b));
}

#[test]
fn apply_twice_is_apply_once() {
    let b = block("127.0.0.1 a.local\n");
    for text in ["", "x\n", "no newline", "a\n# docker-vhoster block end\nb\n"] {
        let once = apply(text, &b);
        assert_eq!(apply(&once, &b), once);
    }
    let with_block = format!("head\n{}tail\n", block("9.9.9.9 old\n"));
    let once = apply(&with_block, &b);
    assert_eq!(apply(&once, &b), once);
}

#[test]
fn apply_appends_when_end_marker_missing() {
    let text = format!("x\n{}y\n", START_MARKER);
    let b = block("");
    assert_eq!(apply(&text, &b), format!("{}\n{}", text, b));
}

#[test]
fn apply_appends_when_end_marker_precedes_start() {
    let text = format!("{}{}", END_MARKER, START_MARKER);
    let b = block("");
    assert_eq!(apply(&text, &b), format!("{}\n{}", text, b));
}

#[test]
fn apply_keeps_non_ascii_text() {
    let text = format!("é ü\n{}ß\n", block("1.2.3.4 ö.local\n"));
    let b = block("127.0.0.1 ä.local\n");
    assert_eq!(apply(&text, &b), format!("é ü\n{}ß\n", b));
}

#[test]
fn format_vhost_entry_one_line_per_hostname() {
    let ci = ContainerRecord::new("c2".to_string(), strings(&["b.local", "c.local"]));
    assert_eq!(format_vhost_entry("127.0.0.1", &ci), "127.0.0.1 b.local\n127.0.0.1 c.local");
}

#[test]
fn format_vhost_entry_without_hostnames_is_empty() {
    let ci = ContainerRecord::new("c".to_string(), Vec::new());
    assert_eq!(format_vhost_entry("127.0.0.1", &ci), "");
}

#[test]
fn rendered_block_lists_every_hostname() {
    let mut reg = Registry::new();
    assert!(reg.upsert("c1".to_string(), strings(&["a.local"])));
    assert!(reg.upsert("c2".to_string(), strings(&["b.local", "c.local"])));
    let r = render_block(&reg, "127.0.0.1");
    let lines: Vec<&str> = r.lines().collect();
    assert_eq!(lines.first(), Some(&"# docker-vhoster managed block"));
    assert_eq!(lines.last(), Some(&"# docker-vhoster block end"));
    let mut body: Vec<&str> = lines[1..lines.len() - 1].to_vec();
    body.sort();
    assert_eq!(body, vec!["127.0.0.1 a.local", "127.0.0.1 b.local", "127.0.0.1 c.local"]);
    assert_eq!(
        r,
        "# docker-vhoster managed block\n127.0.0.1 a.local\n127.0.0.1 b.local\n127.0.0.1 c.local\n# docker-vhoster block end\n"
    );
    assert_eq!(format_vhosts(&reg, "127.0.0.1"), "127.0.0.1 a.local\n127.0.0.1 b.local\n127.0.0.1 c.local");
}

#[test]
fn empty_registry_renders_empty_block() {
    let reg = Registry::new();
    assert_eq!(render_block(&reg, "127.0.0.1"), "# docker-vhoster managed block\n\n# docker-vhoster block end\n");
    assert_eq!(format_vhosts(&reg, "127.0.0.1"), "");
}

#[test]
fn format_vhosts_follows_id_order() {
    let mut reg = Registry::new();
    reg.upsert("zz".to_string(), strings(&["z.local"]));
    reg.upsert("aa".to_string(), strings(&["a.local"]));
    assert_eq!(format_vhosts(&reg, "10.0.0.1"), "10.0.0.1 a.local\n10.0.0.1 z.local");
}

#[test]
fn updated_hosts_text_sets_block() {
    let mut reg = Registry::new();
    reg.upsert("c1".to_string(), strings(&["a.local"]));
    let text = "127.0.0.1 localhost\n";
    let r = updated_hosts_text(text, &reg, "127.0.0.1");
    assert_eq!(
        r,
        "127.0.0.1 localhost\n\n# docker-vhoster managed block\n127.0.0.1 a.local\n# docker-vhoster block end\n"
    );
    reg.remove("c1");
    let r2 = updated_hosts_text(&r, &reg, "127.0.0.1");
    assert_eq!(r2, "127.0.0.1 localhost\n\n# docker-vhoster managed block\n\n# docker-vhoster block end\n");
}

#[test]
fn format_vhost_entry_splits_into_one_line_per_hostname() {
    let ci = ContainerRecord::new("c".to_string(), strings(&["x.local", "y.local", "z.local"]));
    let r = format_vhost_entry("10.1.1.1", &ci);
    let pieces: Vec<&str> = r.split('\n').collect();
    assert_eq!(pieces, vec!["10.1.1.1 x.local", "10.1.1.1 y.local", "10.1.1.1 z.local"]);
    let one = ContainerRecord::new("d".to_string(), strings(&["only.local"]));
    assert_eq!(format_vhost_entry("10.1.1.1", &one), "10.1.1.1 only.local");
}

#[test]
fn format_vhosts_joins_records_with_line_breaks() {
    let mut reg = Registry::new();
    reg.upsert("c1".to_string(), strings(&["a.local", "b.local"]));
    reg.upsert("c2".to_string(), strings(&["c.local"]));
    let r = format_vhosts(&reg, "1.2.3.4");
    let pieces: Vec<&str> = r.split('\n').collect();
    assert_eq!(pieces, vec!["1.2.3.4 a.local", "1.2.3.4 b.local", "1.2.3.4 c.local"]);
}

#[test]
fn block_replaced_with_joined_lines() {
    let mut reg = Registry::new();
    reg.upsert("c1".to_string(), strings(&["a.local"]));
    let text = format!("pre\n{}post\n", block("127.0.0.1 old.local\n"));
    assert_eq!(
        updated_hosts_text(&text, &reg, "127.0.0.1"),
        "pre\n# docker-vhoster managed block\n127.0.0.1 a.local\n# docker-vhoster block end\npost\n"
    );
}
