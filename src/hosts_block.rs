//! The managed block of the hosts file: how it is rendered from the registry
//! and how it replaces an earlier block inside text that the user owns.

use vstd::prelude::*;
use crate::registry::{
    apply_op, apply_ops, is_snapshot, last_call_at, lemma_registry_consistency,
    lemma_registry_last_hosts, op_hosts, op_id, records_view, ContainerRecord, Registry, RegistryOp,
};
use crate::text::{chars_of, contains, find_from, find_spec, lemma_find_at, lemma_find_spec, occurs_at};

verus! {

/// The line that opens the managed block.
pub const START_MARKER: &'static str = "# docker-vhoster managed block\n";

/// The line that closes the managed block.
pub const END_MARKER: &'static str = "# docker-vhoster block end\n";

/// The line that maps `host` to `ip`, without its line break.
pub open spec fn entry_line(ip: Seq<char>, host: Seq<char>) -> Seq<char> {
    ip + seq![' '] + host
}

/// One line for each hostname, in order, joined by line breaks (no line
/// break after the last).
pub open spec fn entry_lines(ip: Seq<char>, hosts: Seq<Seq<char>>) -> Seq<char>
    decreases hosts.len(),
{
    if hosts.len() == 0 {
        Seq::empty()
    } else if hosts.len() == 1 {
        entry_line(ip, hosts[0])
    } else {
        entry_lines(ip, hosts.drop_last()) + seq!['\n'] + entry_line(ip, hosts.last())
    }
}

/// The lines of each record, record after record, the records' texts joined
/// by line breaks.
pub open spec fn records_lines(ip: Seq<char>, es: Seq<(Seq<char>, Seq<Seq<char>>)>) -> Seq<char>
    decreases es.len(),
{
    if es.len() == 0 {
        Seq::empty()
    } else if es.len() == 1 {
        entry_lines(ip, es[0].1)
    } else {
        records_lines(ip, es.drop_last()) + seq!['\n'] + entry_lines(ip, es.last().1)
    }
}

/// The managed block for the records `es`: the start marker, their lines, a
/// line break and the end marker.
pub open spec fn block_spec(ip: Seq<char>, es: Seq<(Seq<char>, Seq<Seq<char>>)>) -> Seq<char> {
    START_MARKER@ + records_lines(ip, es) + seq!['\n'] + END_MARKER@
}

/// The lines that map each hostname of `ci` to `ip`, joined by line breaks.
pub fn format_vhost_entry(ip: &str, ci: &ContainerRecord) -> (r: String)
    ensures
        r@ == entry_lines(ip@, ci@.1),
{
    let space = " ";
    let nl = "\n";
    proof {
        reveal_strlit(" ");
        reveal_strlit("\n");
    }
    let mut r = String::new();
    let mut i: usize = 0;
    while i < ci.vhosts.len()
        invariant
            i <= ci@.1.len(),
            ci@.1.len() == ci.vhosts@.len(),
            space@ == seq![' '],
            nl@ == seq!['\n'],
            r@ == entry_lines(ip@, ci@.1.take(i as int)),
        decreases ci.vhosts.len() - i,
    {
        if i > 0 {
            r.append(nl);
        }
        r.append(ip);
        r.append(space);
        r.append(ci.vhosts[i].as_str());
        assert(ci@.1.take(i + 1).drop_last() =~= ci@.1.take(i as int));
        assert(ci@.1.take(i + 1).last() == ci@.1[i as int]);
        assert(ci@.1.take(i + 1)[0] == ci@.1[0]);
        assert(r@ =~= entry_lines(ip@, ci@.1.take(i + 1)));
        i = i + 1;
    }
    assert(ci@.1.take(i as int) =~= ci@.1);
    r
}

/// The lines of the managed block for the records of `registry`, in the order
/// of its snapshot, the records' texts joined by line breaks.
pub fn format_vhosts(registry: &Registry, ip: &str) -> (r: String)
    requires
        registry.wf(),
    ensures
        r@ == records_lines(ip@, registry.entries()),
{
    let records = registry.snapshot();
    let ghost es = records_view(records@);
    let nl = "\n";
    proof {
        reveal_strlit("\n");
    }
    let mut r = String::new();
    let mut i: usize = 0;
    while i < records.len()
        invariant
            i <= records@.len(),
            es == records_view(records@),
            nl@ == seq!['\n'],
            r@ == records_lines(ip@, es.take(i as int)),
        decreases records.len() - i,
    {
        let lines = format_vhost_entry(ip, &records[i]);
        if i > 0 {
            r.append(nl);
        }
        r.append(lines.as_str());
        assert(es.take(i + 1).drop_last() =~= es.take(i as int));
        assert(es.take(i + 1).last() == es[i as int]);
        assert(es.take(i + 1)[0] == es[0]);
        assert(r@ =~= records_lines(ip@, es.take(i + 1)));
        i = i + 1;
    }
    assert(es.take(i as int) =~= es);
    r
}

/// The managed block for the records of `registry`.
pub fn render_block(registry: &Registry, ip: &str) -> (r: String)
    requires
        registry.wf(),
    ensures
        r@ == block_spec(ip@, registry.entries()),
{
    let mut r = START_MARKER.to_owned();
    let lines = format_vhosts(registry, ip);
    r.append(lines.as_str());
    r.append("\n");
    proof {
        reveal_strlit("\n");
    }
    r.append(END_MARKER);
    r
}

/// The new text of the hosts file: `contents` with its managed block set to
/// the block for the records of `registry`.
pub fn updated_hosts_text(contents: &str, registry: &Registry, ip: &str) -> (r: String)
    requires
        registry.wf(),
    ensures
        r@ == apply_spec(contents@, block_spec(ip@, registry.entries())),
{
    let block = render_block(registry, ip);
    apply(contents, block.as_str())
}

/// Where the managed block stands in `t`: from the first start marker through
/// the end of the first end marker after it.
pub open spec fn block_span(t: Seq<char>) -> Option<(int, int)> {
    match find_spec(t, START_MARKER@, 0) {
        Some(s) => match find_spec(t, END_MARKER@, s + START_MARKER@.len()) {
            Some(e) => Some((s, e + END_MARKER@.len())),
            None => None,
        },
        None => None,
    }
}

/// The file text after the managed block of `t` is set to `block`.
pub open spec fn apply_spec(t: Seq<char>, block: Seq<char>) -> Seq<char> {
    match block_span(t) {
        Some((s, e)) => t.subrange(0, s) + block + t.subrange(e, t.len() as int),
        None => t + seq!['\n'] + block,
    }
}

/// Sets the managed block of `existing` to `new_block`: the old block is
/// replaced where both markers are found, else the new one is appended after
/// a line break.
pub fn apply(existing: &str, new_block: &str) -> (r: String)
    ensures
        r@ == apply_spec(existing@, new_block@),
{
    let t = chars_of(existing);
    let start = chars_of(START_MARKER);
    let end = chars_of(END_MARKER);
    match find_from(&t, &start, 0) {
        Some(s) => {
            assert(find_spec(t@, start@, 0) == Some(s as int));
            proof {
                lemma_find_spec(t@, start@, 0);
            }
            assert(occurs_at(t@, s as int, start@));
            assert(s + start.len() <= t.len());
            let body = s + start.len();
            match find_from(&t, &end, body) {
                Some(e) => {
                    assert(find_spec(t@, end@, body as int) == Some(e as int));
                    proof {
                        lemma_find_spec(t@, end@, body as int);
                    }
                    assert(occurs_at(t@, e as int, end@));
                    assert(e + end.len() <= t.len());
                    let after = e + end.len();
                    let mut r = existing.substring_char(0, s).to_owned();
                    r.append(new_block);
                    r.append(existing.substring_char(after, t.len()));
                    return r;
                },
                None => {},
            }
        },
        None => {},
    }
    let mut r = existing.to_owned();
    let nl = "\n";
    proof {
        reveal_strlit("\n");
    }
    r.append(nl);
    r.append(new_block);
    r
}

/// A managed block: it opens with the start marker, and the first end marker
/// after that closes it at its very end.
pub open spec fn block_well_formed(b: Seq<char>) -> bool {
    &&& occurs_at(b, 0, START_MARKER@)
    &&& END_MARKER@.len() <= b.len()
    &&& find_spec(b, END_MARKER@, START_MARKER@.len() as int) == Some(b.len() - END_MARKER@.len())
}

/// The start marker breaks its line only at its end.
proof fn lemma_start_marker_shape()
    ensures
        START_MARKER@.len() == 31,
        forall|k: int| 0 <= k < 30 ==> START_MARKER@[k] != '\n',
        START_MARKER@[30] == '\n',
{
    reveal_strlit("# docker-vhoster managed block\n");
}

/// A well-formed block placed at `at`, with no start marker before it, is the
/// block that a later edit finds.
proof fn lemma_span_of_placed_block(r: Seq<char>, at: int, b: Seq<char>)
    requires
        0 <= at,
        at + b.len() <= r.len(),
        r.subrange(at, at + b.len()) == b,
        block_well_formed(b),
        forall|q: int| 0 <= q < at ==> !occurs_at(r, q, START_MARKER@),
    ensures
        block_span(r) == Some((at, at + b.len())),
{
    let ls = START_MARKER@.len() as int;
    let le = END_MARKER@.len() as int;
    assert forall|k: int| 0 <= k < ls implies #[trigger] r[at + k] == START_MARKER@[k] by {
        assert(r[at + k] == r.subrange(at, at + b.len())[k]);
        assert(b[0 + k] == START_MARKER@[k]);
    }
    lemma_find_at(r, START_MARKER@, 0, at);
    lemma_find_spec(b, END_MARKER@, ls);
    let e = at + b.len() - le;
    assert forall|k: int| 0 <= k < le implies #[trigger] r[e + k] == END_MARKER@[k] by {
        assert(r[e + k] == r.subrange(at, at + b.len())[b.len() - le + k]);
        assert(occurs_at(b, b.len() - le, END_MARKER@));
        assert(b[b.len() - le + k] == END_MARKER@[k]);
    }
    assert forall|q: int| at + ls <= q < e implies !occurs_at(r, q, END_MARKER@) by {
        if occurs_at(r, q, END_MARKER@) {
            assert forall|k: int| 0 <= k < le implies #[trigger] b[q - at + k] == END_MARKER@[k] by {
                assert(r[q + k] == END_MARKER@[k]);
                assert(r[q + k] == r.subrange(at, at + b.len())[q - at + k]);
            }
            assert(occurs_at(b, q - at, END_MARKER@));
        }
    }
    lemma_find_at(r, END_MARKER@, at + ls, e);
}

/// Setting the block twice gives what setting it once gave, for a well-formed
/// block and for any text whose block is found or in which no start marker
/// appears once a line break is added.
pub proof fn lemma_apply_idempotent(t: Seq<char>, b: Seq<char>)
    requires
        block_well_formed(b),
        block_span(t) is Some || !contains(t + seq!['\n'], START_MARKER@),
    ensures
        apply_spec(apply_spec(t, b), b) == apply_spec(t, b),
{
    let r = apply_spec(t, b);
    let ls = START_MARKER@.len() as int;
    match block_span(t) {
        Some((s, e)) => {
            lemma_find_spec(t, START_MARKER@, 0);
            lemma_find_spec(t, END_MARKER@, s + ls);
            assert(r.subrange(s, s + b.len()) =~= b);
            assert forall|q: int| 0 <= q < s implies !occurs_at(r, q, START_MARKER@) by {
                if occurs_at(r, q, START_MARKER@) {
                    assert forall|k: int| 0 <= k < ls implies #[trigger] t[q + k]
                        == START_MARKER@[k] by {
                        assert(r[q + k] == START_MARKER@[k]);
                        if q + k < s {
                            assert(r[q + k] == t[q + k]);
                        } else {
                            assert(t[s + (q + k - s)] == START_MARKER@[q + k - s]);
                            assert(r[q + k] == b[q + k - s]);
                            assert(b[0 + (q + k - s)] == START_MARKER@[q + k - s]);
                        }
                    }
                    assert(occurs_at(t, q, START_MARKER@));
                }
            }
            lemma_span_of_placed_block(r, s, b);
            assert(apply_spec(r, b) =~= r);
        },
        None => {
            let u = t + seq!['\n'];
            let n = t.len() + 1int;
            assert(r =~= u + b);
            assert(r.subrange(n, n + b.len()) =~= b);
            assert forall|q: int| 0 <= q < n implies !occurs_at(r, q, START_MARKER@) by {
                if occurs_at(r, q, START_MARKER@) {
                    if q + ls <= n {
                        assert forall|k: int| 0 <= k < ls implies #[trigger] u[q + k]
                            == START_MARKER@[k] by {
                            assert(r[q + k] == START_MARKER@[k]);
                            assert(r[q + k] == u[q + k]);
                        }
                        assert(occurs_at(u, q, START_MARKER@));
                    } else {
                        lemma_start_marker_shape();
                        let k = n - 1 - q;
                        assert(r[q + k] == START_MARKER@[k]);
                        assert(r[n - 1] == '\n');
                    }
                }
            }
            lemma_span_of_placed_block(r, n, b);
            assert(apply_spec(r, b) =~= r);
        },
    }
}

/// Where both markers are found, the text before the block and the text after
/// it come through unchanged, and the new block stands between them.
pub proof fn lemma_apply_keeps_outside(t: Seq<char>, b: Seq<char>)
    requires
        block_span(t) is Some,
    ensures
        ({
            let (s, e) = block_span(t)->0;
            let r = apply_spec(t, b);
            &&& r.subrange(0, s) == t.subrange(0, s)
            &&& r.subrange(s, s + b.len()) == b
            &&& r.subrange(s + b.len(), r.len() as int) == t.subrange(e, t.len() as int)
        }),
{
    let (s, e) = block_span(t)->0;
    let r = apply_spec(t, b);
    lemma_find_spec(t, START_MARKER@, 0);
    lemma_find_spec(t, END_MARKER@, s + START_MARKER@.len());
    assert(r.subrange(0, s) =~= t.subrange(0, s));
    assert(r.subrange(s, s + b.len()) =~= b);
    assert(r.subrange(s + b.len(), r.len() as int) =~= t.subrange(e, t.len() as int));
}

/// Where a marker is missing, the text is kept whole and the block follows it
/// after a line break.
pub proof fn lemma_apply_appends(t: Seq<char>, b: Seq<char>)
    requires
        !contains(t, START_MARKER@) || !contains(t, END_MARKER@),
    ensures
        apply_spec(t, b) == t + seq!['\n'] + b,
        apply_spec(t, b).subrange(0, t.len() as int) == t,
{
    lemma_find_spec(t, START_MARKER@, 0);
    match find_spec(t, START_MARKER@, 0) {
        Some(s) => {
            lemma_find_spec(t, END_MARKER@, s + START_MARKER@.len());
        },
        None => {},
    }
    assert((t + seq!['\n'] + b).subrange(0, t.len() as int) =~= t);
}

/// `s` holds no `#`.
pub open spec fn no_hash(s: Seq<char>) -> bool {
    forall|k: int| 0 <= k < s.len() ==> s[k] != '#'
}

proof fn lemma_no_hash_concat(a: Seq<char>, b: Seq<char>)
    requires
        no_hash(a),
        no_hash(b),
    ensures
        no_hash(a + b),
{
    assert forall|k: int| 0 <= k < (a + b).len() implies (a + b)[k] != '#' by {
        if k < a.len() {
            assert((a + b)[k] == a[k]);
        } else {
            assert((a + b)[k] == b[k - a.len()]);
        }
    }
}

proof fn lemma_entry_lines_no_hash(ip: Seq<char>, hosts: Seq<Seq<char>>)
    requires
        no_hash(ip),
        forall|i: int| 0 <= i < hosts.len() ==> no_hash(#[trigger] hosts[i]),
    ensures
        no_hash(entry_lines(ip, hosts)),
    decreases hosts.len(),
{
    if hosts.len() > 0 {
        let prev = hosts.drop_last();
        assert forall|i: int| 0 <= i < prev.len() implies no_hash(#[trigger] prev[i]) by {
            assert(prev[i] == hosts[i]);
        }
        lemma_entry_lines_no_hash(ip, prev);
        assert(no_hash(hosts[hosts.len() - 1]));
        assert(no_hash(hosts[0]));
        assert(no_hash(seq!['\n']));
        lemma_no_hash_concat(ip, seq![' ']);
        lemma_no_hash_concat(ip + seq![' '], hosts.last());
        lemma_no_hash_concat(ip + seq![' '], hosts[0]);
        lemma_no_hash_concat(entry_lines(ip, prev), seq!['\n']);
        lemma_no_hash_concat(entry_lines(ip, prev) + seq!['\n'], entry_line(ip, hosts.last()));
    }
}

proof fn lemma_records_lines_no_hash(ip: Seq<char>, es: Seq<(Seq<char>, Seq<Seq<char>>)>)
    requires
        no_hash(ip),
        forall|i: int, j: int| 0 <= i < es.len() && 0 <= j < es[i].1.len() ==> no_hash(#[trigger] es[i].1[j]),
    ensures
        no_hash(records_lines(ip, es)),
    decreases es.len(),
{
    if es.len() > 0 {
        let prev = es.drop_last();
        assert forall|i: int, j: int| 0 <= i < prev.len() && 0 <= j < prev[i].1.len() implies no_hash(
            #[trigger] prev[i].1[j],
        ) by {
            assert(prev[i] == es[i]);
        }
        lemma_records_lines_no_hash(ip, prev);
        let last = es.last().1;
        assert forall|j: int| 0 <= j < last.len() implies no_hash(#[trigger] last[j]) by {
            assert(no_hash(es[es.len() - 1].1[j]));
        }
        lemma_entry_lines_no_hash(ip, last);
        assert(no_hash(seq!['\n']));
        lemma_no_hash_concat(records_lines(ip, prev), seq!['\n']);
        lemma_no_hash_concat(records_lines(ip, prev) + seq!['\n'], entry_lines(ip, last));
    }
}

/// A rendered block is well-formed when neither the address nor any hostname
/// holds a `#`.
pub proof fn lemma_rendered_block_well_formed(ip: Seq<char>, es: Seq<(Seq<char>, Seq<Seq<char>>)>)
    requires
        no_hash(ip),
        forall|i: int, j: int| 0 <= i < es.len() && 0 <= j < es[i].1.len() ==> no_hash(#[trigger] es[i].1[j]),
    ensures
        block_well_formed(block_spec(ip, es)),
{
    reveal_strlit("# docker-vhoster block end\n");
    let lines = records_lines(ip, es);
    let b = block_spec(ip, es);
    let ls = START_MARKER@.len() as int;
    let le = END_MARKER@.len() as int;
    lemma_records_lines_no_hash(ip, es);
    assert forall|k: int| 0 <= k < ls implies #[trigger] b[0 + k] == START_MARKER@[k] by {
        assert(b[k] == START_MARKER@[k]);
    }
    let e = b.len() - le;
    assert forall|k: int| 0 <= k < le implies #[trigger] b[e + k] == END_MARKER@[k] by {
        assert(b[e + k] == END_MARKER@[k]);
    }
    assert forall|q: int| ls <= q < e implies !occurs_at(b, q, END_MARKER@) by {
        if q < ls + lines.len() {
            assert(b[q] == lines[q - ls]);
        } else {
            assert(b[q] == '\n');
        }
        assert(b[q + 0] == b[q]);
    }
    lemma_find_at(b, END_MARKER@, ls, e);
}

/// Writing the same registry twice gives what writing it once gave: setting
/// the rendered block twice equals setting it once, where neither the address
/// nor any hostname holds a `#`, for any text whose block is found or in which
/// no start marker appears once a line break is added.
pub proof fn lemma_sync_idempotent(t: Seq<char>, ip: Seq<char>, es: Seq<(Seq<char>, Seq<Seq<char>>)>)
    requires
        no_hash(ip),
        forall|i: int, j: int| 0 <= i < es.len() && 0 <= j < es[i].1.len() ==> no_hash(#[trigger] es[i].1[j]),
        block_span(t) is Some || !contains(t + seq!['\n'], START_MARKER@),
    ensures
        apply_spec(apply_spec(t, block_spec(ip, es)), block_spec(ip, es)) == apply_spec(t, block_spec(ip, es)),
{
    lemma_rendered_block_well_formed(ip, es);
    lemma_apply_idempotent(t, block_spec(ip, es));
}

/// The pieces joined by line breaks, with none after the last.
pub open spec fn join_lines(parts: Seq<Seq<char>>) -> Seq<char>
    decreases parts.len(),
{
    if parts.len() == 0 {
        Seq::empty()
    } else if parts.len() == 1 {
        parts[0]
    } else {
        join_lines(parts.drop_last()) + seq!['\n'] + parts.last()
    }
}

/// The lines of the block, one for each hostname of each record, record after
/// record.
pub open spec fn host_lines(ip: Seq<char>, es: Seq<(Seq<char>, Seq<Seq<char>>)>) -> Seq<Seq<char>>
    decreases es.len(),
{
    if es.len() == 0 {
        Seq::empty()
    } else {
        host_lines(ip, es.drop_last()) + es.last().1.map_values(|h: Seq<char>| entry_line(ip, h))
    }
}

/// Some record of `es` has a hostname whose line is `line`.
pub open spec fn renders_line(ip: Seq<char>, es: Seq<(Seq<char>, Seq<Seq<char>>)>, line: Seq<char>) -> bool {
    exists|i: int, j: int| 0 <= i < es.len() && 0 <= j < es[i].1.len() && line == entry_line(ip, es[i].1[j])
}

proof fn lemma_join_concat(a: Seq<Seq<char>>, b: Seq<Seq<char>>)
    requires
        a.len() > 0,
        b.len() > 0,
    ensures
        join_lines(a + b) == join_lines(a) + seq!['\n'] + join_lines(b),
    decreases b.len(),
{
    if b.len() == 1 {
        assert((a + b).drop_last() =~= a);
        assert((a + b).last() == b[0]);
    } else {
        assert((a + b).drop_last() =~= a + b.drop_last());
        assert((a + b).last() == b.last());
        lemma_join_concat(a, b.drop_last());
        assert(join_lines(a + b) =~= join_lines(a) + seq!['\n'] + join_lines(b));
    }
}

proof fn lemma_entry_lines_join(ip: Seq<char>, hosts: Seq<Seq<char>>)
    ensures
        entry_lines(ip, hosts) == join_lines(hosts.map_values(|h: Seq<char>| entry_line(ip, h))),
    decreases hosts.len(),
{
    let f = |h: Seq<char>| entry_line(ip, h);
    if hosts.len() > 1 {
        lemma_entry_lines_join(ip, hosts.drop_last());
        assert(hosts.map_values(f).drop_last() =~= hosts.drop_last().map_values(f));
    }
}

/// The lines of the records are their hostnames' lines joined by line breaks,
/// where each record has a hostname.
proof fn lemma_records_lines_join(ip: Seq<char>, es: Seq<(Seq<char>, Seq<Seq<char>>)>)
    requires
        forall|i: int| 0 <= i < es.len() ==> (#[trigger] es[i]).1.len() > 0,
    ensures
        records_lines(ip, es) == join_lines(host_lines(ip, es)),
        es.len() > 0 ==> host_lines(ip, es).len() > 0,
    decreases es.len(),
{
    let f = |h: Seq<char>| entry_line(ip, h);
    if es.len() > 0 {
        let prev = es.drop_last();
        assert forall|i: int| 0 <= i < prev.len() implies (#[trigger] prev[i]).1.len() > 0 by {
            assert(prev[i] == es[i]);
        }
        lemma_records_lines_join(ip, prev);
        let last = es.last().1;
        assert(es[es.len() - 1].1.len() > 0);
        lemma_entry_lines_join(ip, last);
        if es.len() == 1 {
            assert(host_lines(ip, prev) =~= Seq::<Seq<char>>::empty());
            assert(host_lines(ip, es) =~= last.map_values(f));
        } else {
            lemma_join_concat(host_lines(ip, prev), last.map_values(f));
        }
    }
}

proof fn lemma_host_lines_members(ip: Seq<char>, es: Seq<(Seq<char>, Seq<Seq<char>>)>)
    ensures
        forall|line: Seq<char>| #[trigger] host_lines(ip, es).contains(line) <==> renders_line(ip, es, line),
    decreases es.len(),
{
    let f = |h: Seq<char>| entry_line(ip, h);
    if es.len() > 0 {
        let prev = es.drop_last();
        let n = es.len() - 1;
        let last = es.last().1;
        lemma_host_lines_members(ip, prev);
        let hl = host_lines(ip, es);
        let hp = host_lines(ip, prev);
        let tail = last.map_values(f);
        assert(hl == hp + tail);
        assert forall|line: Seq<char>| #[trigger] hl.contains(line) <==> renders_line(ip, es, line) by {
            if hl.contains(line) {
                let k = choose|k: int| 0 <= k < hl.len() && hl[k] == line;
                if k < hp.len() {
                    assert(hp[k] == line);
                    assert(hp.contains(line));
                    let (i, j) = choose|i: int, j: int|
                        0 <= i < prev.len() && 0 <= j < prev[i].1.len() && line == entry_line(ip, prev[i].1[j]);
                    assert(prev[i] == es[i]);
                } else {
                    let j = k - hp.len();
                    assert(tail[j] == line);
                    assert(line == entry_line(ip, es[n].1[j]));
                }
            }
            if renders_line(ip, es, line) {
                let (i, j) = choose|i: int, j: int|
                    0 <= i < es.len() && 0 <= j < es[i].1.len() && line == entry_line(ip, es[i].1[j]);
                if i < n {
                    assert(prev[i] == es[i]);
                    assert(renders_line(ip, prev, line));
                    assert(hp.contains(line));
                    let k = choose|k: int| 0 <= k < hp.len() && hp[k] == line;
                    assert(hl[k] == line);
                } else {
                    assert(hl[hp.len() + j] == tail[j]);
                    assert(hl[hp.len() + j] == line);
                }
            }
        }
    }
}

/// The rendered block, between its marker lines, holds one line for each
/// hostname of each record, each on a line of its own, records in snapshot
/// order, where each record has a hostname.
pub proof fn lemma_block_lines(ip: Seq<char>, es: Seq<(Seq<char>, Seq<Seq<char>>)>)
    requires
        forall|i: int| 0 <= i < es.len() ==> (#[trigger] es[i]).1.len() > 0,
    ensures
        block_spec(ip, es) == START_MARKER@ + join_lines(host_lines(ip, es)) + seq!['\n'] + END_MARKER@,
        forall|line: Seq<char>| #[trigger] host_lines(ip, es).contains(line) <==> renders_line(ip, es, line),
{
    lemma_records_lines_join(ip, es);
    lemma_host_lines_members(ip, es);
}

/// After any interleaving of upserts and removals on an empty registry, the
/// lines of the rendered block are exactly those of the hostnames of each
/// id whose last call was an upsert, as that upsert gave them.
pub proof fn lemma_rendered_after_calls(
    ops: Seq<RegistryOp>,
    ip: Seq<char>,
    es: Seq<(Seq<char>, Seq<Seq<char>>)>,
)
    requires
        forall|i: int| 0 <= i < ops.len() ==> op_id(#[trigger] ops[i]).len() > 0,
        is_snapshot(es, apply_ops(Map::empty(), ops)),
    ensures
        forall|line: Seq<char>| #[trigger] host_lines(ip, es).contains(line) <==> exists|i: int, j: int|
            last_call_at(ops, i) && 0 <= j < op_hosts(ops[i]).len() && line == entry_line(
                ip,
                #[trigger] op_hosts(ops[i])[j],
            ),
{
    let m = apply_ops(Map::empty(), ops);
    lemma_registry_consistency(ops);
    lemma_registry_last_hosts(ops);
    lemma_host_lines_members(ip, es);
    assert forall|line: Seq<char>| #[trigger] host_lines(ip, es).contains(line) <==> exists|i: int, j: int|
        last_call_at(ops, i) && 0 <= j < op_hosts(ops[i]).len() && line == entry_line(
            ip,
            #[trigger] op_hosts(ops[i])[j],
        ) by {
        if host_lines(ip, es).contains(line) {
            let (x, j) = choose|x: int, j: int|
                0 <= x < es.len() && 0 <= j < es[x].1.len() && line == entry_line(ip, es[x].1[j]);
            let id = es[x].0;
            assert(m.contains_key(id));
            let i = choose|i: int|
                0 <= i < ops.len() && ops[i] is Upsert && op_id(ops[i]) == id && forall|j: int|
                    i < j < ops.len() ==> op_id(#[trigger] ops[j]) != id;
            assert(last_call_at(ops, i));
            assert(op_hosts(ops[i])[j] == es[x].1[j]);
        }
        if exists|i: int, j: int|
            last_call_at(ops, i) && 0 <= j < op_hosts(ops[i]).len() && line == entry_line(
                ip,
                #[trigger] op_hosts(ops[i])[j],
            ) {
            let (i, j) = choose|i: int, j: int|
                last_call_at(ops, i) && 0 <= j < op_hosts(ops[i]).len() && line == entry_line(
                    ip,
                    #[trigger] op_hosts(ops[i])[j],
                );
            let id = op_id(ops[i]);
            assert(m.contains_key(id));
            let x = choose|x: int| 0 <= x < es.len() && es[x].0 == id;
            assert(es[x].1 == op_hosts(ops[i]));
            assert(renders_line(ip, es, line));
        }
    }
}

/// After a container is registered with hostnames `hosts`, and a stop event
/// for it, the next rendered block has no line for a hostname of `hosts` that
/// no other container has.
pub proof fn lemma_stop_omits_hostnames(
    m: Map<Seq<char>, Seq<Seq<char>>>,
    id: Seq<char>,
    hosts: Seq<Seq<char>>,
    ip: Seq<char>,
    es: Seq<(Seq<char>, Seq<Seq<char>>)>,
    h: Seq<char>,
)
    requires
        id.len() > 0,
        is_snapshot(es, apply_op(apply_op(m, RegistryOp::Upsert(id, hosts)), RegistryOp::Remove(id))),
        hosts.contains(h),
        forall|k: Seq<char>| #[trigger] m.contains_key(k) && k != id ==> !m[k].contains(h),
    ensures
        !host_lines(ip, es).contains(entry_line(ip, h)),
{
    let m2 = apply_op(apply_op(m, RegistryOp::Upsert(id, hosts)), RegistryOp::Remove(id));
    assert(m2 =~= m.remove(id));
    lemma_host_lines_members(ip, es);
    if host_lines(ip, es).contains(entry_line(ip, h)) {
        let (x, j) = choose|x: int, j: int|
            0 <= x < es.len() && 0 <= j < es[x].1.len() && entry_line(ip, h) == entry_line(ip, es[x].1[j]);
        let k = es[x].0;
        assert(m2.contains_key(k));
        assert(h =~= entry_line(ip, h).skip(ip.len() + 1int));
        assert(es[x].1[j] =~= entry_line(ip, es[x].1[j]).skip(ip.len() + 1int));
        assert(m.contains_key(k) && k != id);
        assert(m[k] == es[x].1);
        assert(m[k].contains(h));
    }
}

} // verus!
