//! The registry of running containers: for each container id, the hostnames
//! it answers to, kept in order of id.

use vstd::prelude::*;
use crate::text::chars_of;

verus! {

/// One running container and the hostnames it answers to.
pub struct ContainerRecord {
    pub id: String,
    pub vhosts: Vec<String>,
}

/// The characters of each string, in order.
pub open spec fn strings_view(v: Seq<String>) -> Seq<Seq<char>> {
    v.map_values(|s: String| s@)
}

impl View for ContainerRecord {
    type V = (Seq<char>, Seq<Seq<char>>);

    open spec fn view(&self) -> (Seq<char>, Seq<Seq<char>>) {
        (self.id@, strings_view(self.vhosts@))
    }
}

/// The models of the records, in order.
pub open spec fn records_view(v: Seq<ContainerRecord>) -> Seq<(Seq<char>, Seq<Seq<char>>)> {
    v.map_values(|r: ContainerRecord| r@)
}

/// A copy of each string, in order.
pub fn copy_strings(v: &Vec<String>) -> (r: Vec<String>)
    ensures
        r@ == v@,
{
    let mut r: Vec<String> = Vec::new();
    let mut i: usize = 0;
    while i < v.len()
        invariant
            i <= v.len(),
            r@ == v@.take(i as int),
        decreases v.len() - i,
    {
        r.push(v[i].clone());
        assert(v@.take(i + 1) =~= v@.take(i as int).push(v@[i as int]));
        i = i + 1;
    }
    assert(v@.take(i as int) =~= v@);
    r
}

impl ContainerRecord {
    /// A record of `id` with the hostnames `vhosts`.
    pub fn new(id: String, vhosts: Vec<String>) -> (r: Self)
        ensures
            r.id == id,
            r.vhosts == vhosts,
    {
        ContainerRecord { id, vhosts }
    }

    /// A copy of the record.
    pub fn duplicate(&self) -> (r: Self)
        ensures
            r@ == self@,
    {
        ContainerRecord { id: self.id.clone(), vhosts: copy_strings(&self.vhosts) }
    }
}

/// `a` comes before `b` in the order of their characters' code points,
/// a proper prefix first.
pub open spec fn lex_lt(a: Seq<char>, b: Seq<char>) -> bool
    decreases a.len(),
{
    if a.len() == 0 {
        b.len() > 0
    } else if b.len() == 0 {
        false
    } else if a[0] < b[0] {
        true
    } else if a[0] == b[0] {
        lex_lt(a.drop_first(), b.drop_first())
    } else {
        false
    }
}

/// No sequence comes before itself.
pub proof fn lemma_lex_irreflexive(a: Seq<char>)
    ensures
        !lex_lt(a, a),
    decreases a.len(),
{
    if a.len() > 0 {
        lemma_lex_irreflexive(a.drop_first());
    }
}

/// The order is transitive.
pub proof fn lemma_lex_transitive(a: Seq<char>, b: Seq<char>, c: Seq<char>)
    requires
        lex_lt(a, b),
        lex_lt(b, c),
    ensures
        lex_lt(a, c),
    decreases a.len(),
{
    if a.len() > 0 && b.len() > 0 && c.len() > 0 && a[0] == b[0] && b[0] == c[0] {
        lemma_lex_transitive(a.drop_first(), b.drop_first(), c.drop_first());
    }
}

/// Of two different sequences, one comes before the other.
pub proof fn lemma_lex_total(a: Seq<char>, b: Seq<char>)
    requires
        a != b,
    ensures
        lex_lt(a, b) || lex_lt(b, a),
    decreases a.len(),
{
    if a.len() == 0 {
        assert(b.len() > 0) by {
            if b.len() == 0 {
                assert(a =~= b);
            }
        }
    } else if b.len() > 0 && a[0] == b[0] {
        if a.drop_first() == b.drop_first() {
            assert(a =~= seq![a[0]] + a.drop_first());
            assert(b =~= seq![b[0]] + b.drop_first());
        }
        lemma_lex_total(a.drop_first(), b.drop_first());
    }
}

/// Whether `a` comes before `b`.
pub fn id_lt(a: &Vec<char>, b: &Vec<char>) -> (r: bool)
    ensures
        r == lex_lt(a@, b@),
{
    let mut i: usize = 0;
    assert(a@.skip(0) =~= a@);
    assert(b@.skip(0) =~= b@);
    while i < a.len() && i < b.len()
        invariant
            i <= a.len(),
            i <= b.len(),
            lex_lt(a@, b@) == lex_lt(a@.skip(i as int), b@.skip(i as int)),
        decreases a.len() - i,
    {
        if a[i] < b[i] {
            return true;
        }
        if a[i] != b[i] {
            return false;
        }
        assert(a@.skip(i as int).drop_first() =~= a@.skip(i + 1));
        assert(b@.skip(i as int).drop_first() =~= b@.skip(i + 1));
        i = i + 1;
    }
    i < b.len()
}

/// The models are ordered strictly by id.
pub open spec fn ordered_by_id(es: Seq<(Seq<char>, Seq<Seq<char>>)>) -> bool {
    forall|i: int, j: int| 0 <= i < j < es.len() ==> lex_lt(#[trigger] es[i].0, #[trigger] es[j].0)
}

/// `es` lists the records of `m`, each once, in order of id.
pub open spec fn is_snapshot(
    es: Seq<(Seq<char>, Seq<Seq<char>>)>,
    m: Map<Seq<char>, Seq<Seq<char>>>,
) -> bool {
    &&& ordered_by_id(es)
    &&& forall|i: int| 0 <= i < es.len() ==> #[trigger] m.contains_key(es[i].0) && m[es[i].0] == es[i].1
    &&& forall|k: Seq<char>| #[trigger] m.contains_key(k) ==> exists|i: int| 0 <= i < es.len() && es[i].0 == k
}

/// The running containers, each with the hostnames it answers to.
pub struct Registry {
    records: Vec<ContainerRecord>,
    model: Ghost<Map<Seq<char>, Seq<Seq<char>>>>,
}

impl View for Registry {
    type V = Map<Seq<char>, Seq<Seq<char>>>;

    closed spec fn view(&self) -> Map<Seq<char>, Seq<Seq<char>>> {
        self.model@
    }
}

impl Registry {
    /// The records, in the order in which they are kept.
    pub closed spec fn entries(&self) -> Seq<(Seq<char>, Seq<Seq<char>>)> {
        records_view(self.records@)
    }

    /// The records are kept in order of id, one for each id of the map.
    pub open spec fn wf(&self) -> bool {
        is_snapshot(self.entries(), self@)
    }

    /// An empty registry.
    pub fn new() -> (r: Self)
        ensures
            r.wf(),
            r@ == Map::<Seq<char>, Seq<Seq<char>>>::empty(),
    {
        let r = Registry { records: Vec::new(), model: Ghost(Map::empty()) };
        assert(r.entries() =~= Seq::empty());
        r
    }

    /// The position of the first record whose id does not come before `key`.
    fn position_of(&self, key: &Vec<char>) -> (r: usize)
        requires
            self.wf(),
        ensures
            r <= self.records@.len(),
            forall|j: int| 0 <= j < r ==> lex_lt(#[trigger] self.entries()[j].0, key@),
            r < self.records@.len() ==> !lex_lt(self.entries()[r as int].0, key@),
    {
        let mut i: usize = 0;
        while i < self.records.len()
            invariant
                i <= self.records@.len(),
                forall|j: int| 0 <= j < i ==> lex_lt(#[trigger] self.entries()[j].0, key@),
            decreases self.records.len() - i,
        {
            let rid = chars_of(self.records[i].id.as_str());
            if !id_lt(&rid, key) {
                return i;
            }
            i = i + 1;
        }
        i
    }

    /// Whether the record at `i` has the id `key`, given that it is the first
    /// whose id does not come before `key`.
    fn holds_at(&self, i: usize, key: &Vec<char>) -> (r: bool)
        requires
            self.wf(),
            i <= self.records@.len(),
            forall|j: int| 0 <= j < i ==> lex_lt(#[trigger] self.entries()[j].0, key@),
            i < self.records@.len() ==> !lex_lt(self.entries()[i as int].0, key@),
        ensures
            r == self@.contains_key(key@),
            r ==> i < self.records@.len() && self.entries()[i as int].0 == key@,
            !r ==> forall|j: int| i <= j < self.records@.len() ==> lex_lt(key@, #[trigger] self.entries()[j].0),
    {
        let es = Ghost(self.entries());
        let r = if i < self.records.len() {
            !id_lt(key, &chars_of(self.records[i].id.as_str()))
        } else {
            false
        };
        proof {
            if r {
                if es@[i as int].0 != key@ {
                    lemma_lex_total(es@[i as int].0, key@);
                }
                assert(self@.contains_key(es@[i as int].0));
            } else {
                assert forall|j: int| i <= j < self.records@.len() implies lex_lt(key@, #[trigger] es@[j].0) by {
                    if j > i {
                        lemma_lex_transitive(key@, es@[i as int].0, es@[j].0);
                    }
                }
                if self@.contains_key(key@) {
                    let x = choose|x: int| 0 <= x < es@.len() && es@[x].0 == key@;
                    lemma_lex_irreflexive(key@);
                    if x < i {
                        assert(lex_lt(es@[x].0, key@));
                    } else {
                        assert(lex_lt(key@, es@[x].0));
                    }
                }
            }
        }
        r
    }

    /// Whether a container with the id `id` is registered.
    pub fn contains(&self, id: &str) -> (r: bool)
        requires
            self.wf(),
        ensures
            r == self@.contains_key(id@),
    {
        let key = chars_of(id);
        let i = self.position_of(&key);
        self.holds_at(i, &key)
    }

    /// Stores `vhosts` as the hostnames of the container `id`, in place of any
    /// that it had. An empty id is refused and leaves the registry as it was.
    pub fn upsert(&mut self, id: String, vhosts: Vec<String>) -> (stored: bool)
        requires
            old(self).wf(),
        ensures
            final(self).wf(),
            stored == (id@.len() > 0),
            stored ==> final(self)@ == old(self)@.insert(id@, strings_view(vhosts@)),
            !stored ==> final(self)@ == old(self)@,
    {
        if id.as_str().is_empty() {
            return false;
        }
        let key = chars_of(id.as_str());
        let i = self.position_of(&key);
        let found = self.holds_at(i, &key);
        let ghost es = self.entries();
        let ghost m = self@;
        let ghost h = strings_view(vhosts@);
        let rec = ContainerRecord::new(id, vhosts);
        assert(rec@ == (key@, h));
        if found {
            self.records.remove(i);
            self.records.insert(i, rec);
            self.model = Ghost(m.insert(key@, h));
            proof {
                let es2 = self.entries();
                assert(es2 =~= es.update(i as int, (key@, h)));
                assert forall|x: int| 0 <= x < es2.len() implies es2[x].0 == es[x].0 by {}
                lemma_ordered_distinct(es);
                assert forall|k: Seq<char>| #[trigger] self@.contains_key(k) implies exists|x: int|
                    0 <= x < es2.len() && es2[x].0 == k by {
                    if k == key@ {
                        assert(es2[i as int].0 == k);
                    } else {
                        let x = choose|x: int| 0 <= x < es.len() && es[x].0 == k;
                        assert(es2[x].0 == k);
                    }
                }
            }
        } else {
            self.records.insert(i, rec);
            self.model = Ghost(m.insert(key@, h));
            proof {
                let es2 = self.entries();
                assert(es2 =~= es.insert(i as int, (key@, h)));
                lemma_ordered_distinct(es);
                assert forall|a: int, b: int| 0 <= a < b < es2.len() implies lex_lt(
                    #[trigger] es2[a].0,
                    #[trigger] es2[b].0,
                ) by {
                    if b < i {
                        assert(lex_lt(es[a].0, es[b].0));
                    } else if b == i {
                        assert(lex_lt(es[a].0, key@));
                    } else if a < i {
                        assert(lex_lt(es[a].0, key@));
                        assert(lex_lt(key@, es[b - 1].0));
                        lemma_lex_transitive(es[a].0, key@, es[b - 1].0);
                    } else if a == i {
                        assert(lex_lt(key@, es[b - 1].0));
                    } else {
                        assert(lex_lt(es[a - 1].0, es[b - 1].0));
                    }
                }
                assert forall|x: int| 0 <= x < es2.len() implies #[trigger] self@.contains_key(es2[x].0)
                    && self@[es2[x].0] == es2[x].1 by {
                    if x < i {
                        assert(m.contains_key(es[x].0));
                    } else if x > i {
                        assert(m.contains_key(es[x - 1].0));
                    }
                }
                assert forall|k: Seq<char>| #[trigger] self@.contains_key(k) implies exists|x: int|
                    0 <= x < es2.len() && es2[x].0 == k by {
                    if k == key@ {
                        assert(es2[i as int].0 == k);
                    } else {
                        assert(m.contains_key(k));
                        let x = choose|x: int| 0 <= x < es.len() && es[x].0 == k;
                        if x < i {
                            assert(es2[x].0 == k);
                        } else {
                            assert(es2[x + 1].0 == k);
                        }
                    }
                }
            }
        }
        true
    }

    /// Drops the record of the container `id`; an id that is not registered
    /// leaves the registry as it was.
    pub fn remove(&mut self, id: &str)
        requires
            old(self).wf(),
        ensures
            final(self).wf(),
            final(self)@ == old(self)@.remove(id@),
    {
        let key = chars_of(id);
        let i = self.position_of(&key);
        let found = self.holds_at(i, &key);
        let ghost es = self.entries();
        let ghost m = self@;
        if found {
            self.records.remove(i);
            self.model = Ghost(m.remove(key@));
            proof {
                let es2 = self.entries();
                assert(es2 =~= es.remove(i as int));
                lemma_ordered_distinct(es);
                assert forall|a: int, b: int| 0 <= a < b < es2.len() implies lex_lt(
                    #[trigger] es2[a].0,
                    #[trigger] es2[b].0,
                ) by {
                    if b < i {
                        assert(lex_lt(es[a].0, es[b].0));
                    } else if a < i {
                        assert(lex_lt(es[a].0, es[b + 1].0));
                    } else {
                        assert(lex_lt(es[a + 1].0, es[b + 1].0));
                    }
                }
                assert forall|x: int| 0 <= x < es2.len() implies #[trigger] self@.contains_key(es2[x].0)
                    && self@[es2[x].0] == es2[x].1 by {
                    if x < i {
                        assert(m.contains_key(es[x].0));
                    } else {
                        assert(m.contains_key(es[x + 1].0));
                    }
                }
                assert forall|k: Seq<char>| #[trigger] self@.contains_key(k) implies exists|x: int|
                    0 <= x < es2.len() && es2[x].0 == k by {
                    assert(m.contains_key(k));
                    let x = choose|x: int| 0 <= x < es.len() && es[x].0 == k;
                    assert(x != i);
                    if x < i {
                        assert(es2[x].0 == k);
                    } else {
                        assert(es2[x - 1].0 == k);
                    }
                }
                assert(is_snapshot(es2, self@));
            }
        } else {
            assert(m.remove(key@) =~= m);
        }
    }

    /// The records, one for each registered container, in order of id. The
    /// copy shares nothing with the registry.
    pub fn snapshot(&self) -> (r: Vec<ContainerRecord>)
        requires
            self.wf(),
        ensures
            records_view(r@) == self.entries(),
            is_snapshot(records_view(r@), self@),
    {
        let mut r: Vec<ContainerRecord> = Vec::new();
        let mut i: usize = 0;
        while i < self.records.len()
            invariant
                i <= self.records@.len(),
                records_view(r@) == self.entries().take(i as int),
            decreases self.records.len() - i,
        {
            r.push(self.records[i].duplicate());
            assert(self.entries().take(i + 1) =~= self.entries().take(i as int).push(self.entries()[i as int]));
            assert(records_view(r@) =~= self.entries().take(i + 1));
            i = i + 1;
        }
        assert(self.entries().take(i as int) =~= self.entries());
        r
    }
}

/// Records ordered by id have pairwise different ids.
pub proof fn lemma_ordered_distinct(es: Seq<(Seq<char>, Seq<Seq<char>>)>)
    requires
        ordered_by_id(es),
    ensures
        forall|i: int, j: int| 0 <= i < es.len() && 0 <= j < es.len() && i != j ==> #[trigger] es[i].0 != #[trigger] es[j].0,
{
    assert forall|i: int, j: int| 0 <= i < es.len() && 0 <= j < es.len() && i != j implies #[trigger] es[i].0 != #[trigger] es[j].0 by {
        lemma_lex_irreflexive(es[i].0);
        if i < j {
            assert(lex_lt(es[i].0, es[j].0));
        } else {
            assert(lex_lt(es[j].0, es[i].0));
        }
    }
}

/// One call on the registry, stated over its model.
pub enum RegistryOp {
    /// `upsert` of an id with its hostnames.
    Upsert(Seq<char>, Seq<Seq<char>>),
    /// `remove` of an id.
    Remove(Seq<char>),
}

/// The container id that `op` names.
pub open spec fn op_id(op: RegistryOp) -> Seq<char> {
    match op {
        RegistryOp::Upsert(id, _) => id,
        RegistryOp::Remove(id) => id,
    }
}

/// The model after `op`, as `upsert` and `remove` state it.
pub open spec fn apply_op(m: Map<Seq<char>, Seq<Seq<char>>>, op: RegistryOp) -> Map<
    Seq<char>,
    Seq<Seq<char>>,
> {
    match op {
        RegistryOp::Upsert(id, hosts) => if id.len() > 0 {
            m.insert(id, hosts)
        } else {
            m
        },
        RegistryOp::Remove(id) => m.remove(id),
    }
}

/// The model after the calls `ops`, in order.
pub open spec fn apply_ops(m: Map<Seq<char>, Seq<Seq<char>>>, ops: Seq<RegistryOp>) -> Map<
    Seq<char>,
    Seq<Seq<char>>,
>
    decreases ops.len(),
{
    if ops.len() == 0 {
        m
    } else {
        apply_op(apply_ops(m, ops.drop_last()), ops.last())
    }
}

/// Some record of `es` has the id `id`.
pub open spec fn lists_id(es: Seq<(Seq<char>, Seq<Seq<char>>)>, id: Seq<char>) -> bool {
    exists|i: int| 0 <= i < es.len() && es[i].0 == id
}

/// The last of the calls `ops` that names `id` is an upsert.
pub open spec fn last_call_upserts(ops: Seq<RegistryOp>, id: Seq<char>) -> bool {
    exists|i: int|
        0 <= i < ops.len() && ops[i] is Upsert && op_id(ops[i]) == id && forall|j: int|
            i < j < ops.len() ==> op_id(#[trigger] ops[j]) != id
}

/// Whatever the interleaving of upserts and removals on an empty registry,
/// the ids that are registered afterwards, and so the ids of its snapshot,
/// are exactly those whose last call was an upsert.
pub proof fn lemma_registry_consistency(ops: Seq<RegistryOp>)
    requires
        forall|i: int| 0 <= i < ops.len() ==> op_id(#[trigger] ops[i]).len() > 0,
    ensures
        forall|id: Seq<char>|
            #[trigger] apply_ops(Map::empty(), ops).contains_key(id) <==> last_call_upserts(ops, id),
        forall|es: Seq<(Seq<char>, Seq<Seq<char>>)>, id: Seq<char>|
            is_snapshot(es, apply_ops(Map::empty(), ops)) ==> (#[trigger] lists_id(es, id)
                <==> last_call_upserts(ops, id)),
    decreases ops.len(),
{
    if ops.len() > 0 {
        let prev = ops.drop_last();
        assert forall|i: int| 0 <= i < prev.len() implies op_id(#[trigger] prev[i]).len() > 0 by {
            assert(prev[i] == ops[i]);
        }
        lemma_registry_consistency(prev);
        let n = ops.len() - 1;
        assert(apply_ops(Map::empty(), ops) == apply_op(apply_ops(Map::empty(), prev), ops[n]));
        assert(op_id(ops[n]).len() > 0);
        assert forall|id: Seq<char>| #[trigger]
            apply_ops(Map::empty(), ops).contains_key(id) <==> last_call_upserts(ops, id) by {
            if op_id(ops[n]) == id {
                if ops[n] is Upsert {
                    assert(apply_ops(Map::empty(), ops).contains_key(id));
                    assert(last_call_upserts(ops, id));
                } else if last_call_upserts(ops, id) {
                    let i = choose|i: int|
                        0 <= i < ops.len() && ops[i] is Upsert && op_id(ops[i]) == id && forall|j: int|
                            i < j < ops.len() ==> op_id(#[trigger] ops[j]) != id;
                    assert(i != n);
                    assert(op_id(ops[n]) != id);
                }
            } else {
                if last_call_upserts(ops, id) {
                    let i = choose|i: int|
                        0 <= i < ops.len() && ops[i] is Upsert && op_id(ops[i]) == id && forall|j: int|
                            i < j < ops.len() ==> op_id(#[trigger] ops[j]) != id;
                    assert(prev[i] == ops[i]);
                    assert forall|j: int| i < j < prev.len() implies op_id(#[trigger] prev[j]) != id by {
                        assert(prev[j] == ops[j]);
                    }
                    assert(last_call_upserts(prev, id));
                }
                if last_call_upserts(prev, id) {
                    let i = choose|i: int|
                        0 <= i < prev.len() && prev[i] is Upsert && op_id(prev[i]) == id && forall|j: int|
                            i < j < prev.len() ==> op_id(#[trigger] prev[j]) != id;
                    assert(ops[i] == prev[i]);
                    assert forall|j: int| i < j < ops.len() implies op_id(#[trigger] ops[j]) != id by {
                        if j < n {
                            assert(prev[j] == ops[j]);
                        }
                    }
                    assert(last_call_upserts(ops, id));
                }
            }
        }
    }
    let m = apply_ops(Map::empty(), ops);
    assert forall|es: Seq<(Seq<char>, Seq<Seq<char>>)>, id: Seq<char>|
        is_snapshot(es, m) implies (#[trigger] lists_id(es, id) <==> last_call_upserts(ops, id)) by {
        if lists_id(es, id) {
            let i = choose|i: int| 0 <= i < es.len() && #[trigger] es[i].0 == id;
            assert(m.contains_key(es[i].0));
        }
        if last_call_upserts(ops, id) {
            assert(m.contains_key(id));
        }
    }
}

/// The call at `i` is an upsert, and no later call names its id.
pub open spec fn last_call_at(ops: Seq<RegistryOp>, i: int) -> bool {
    &&& 0 <= i < ops.len()
    &&& ops[i] is Upsert
    &&& forall|j: int| i < j < ops.len() ==> op_id(#[trigger] ops[j]) != op_id(ops[i])
}

/// The hostnames that an upsert stores.
pub open spec fn op_hosts(op: RegistryOp) -> Seq<Seq<char>> {
    match op {
        RegistryOp::Upsert(_, hosts) => hosts,
        RegistryOp::Remove(_) => Seq::empty(),
    }
}

/// After any interleaving of upserts and removals on an empty registry, an id
/// whose last call was an upsert holds the hostnames of that upsert.
pub proof fn lemma_registry_last_hosts(ops: Seq<RegistryOp>)
    requires
        forall|i: int| 0 <= i < ops.len() ==> op_id(#[trigger] ops[i]).len() > 0,
    ensures
        forall|i: int| #[trigger] last_call_at(ops, i) ==> apply_ops(Map::empty(), ops).contains_key(
            op_id(ops[i]),
        ) && apply_ops(Map::empty(), ops)[op_id(ops[i])] == op_hosts(ops[i]),
    decreases ops.len(),
{
    lemma_registry_consistency(ops);
    if ops.len() > 0 {
        let prev = ops.drop_last();
        let n = ops.len() - 1;
        assert forall|i: int| 0 <= i < prev.len() implies op_id(#[trigger] prev[i]).len() > 0 by {
            assert(prev[i] == ops[i]);
        }
        lemma_registry_last_hosts(prev);
        lemma_registry_consistency(prev);
        let mp = apply_ops(Map::empty(), prev);
        assert(apply_ops(Map::empty(), ops) == apply_op(mp, ops[n]));
        assert(op_id(ops[n]).len() > 0);
        assert forall|i: int| #[trigger] last_call_at(ops, i) implies apply_ops(
            Map::empty(),
            ops,
        ).contains_key(op_id(ops[i])) && apply_ops(Map::empty(), ops)[op_id(ops[i])] == op_hosts(
            ops[i],
        ) by {
            let id = op_id(ops[i]);
            assert(last_call_upserts(ops, id));
            if i < n {
                assert(op_id(ops[n]) != id);
                assert(prev[i] == ops[i]);
                assert forall|j: int| i < j < prev.len() implies op_id(#[trigger] prev[j]) != op_id(
                    prev[i],
                ) by {
                    assert(prev[j] == ops[j]);
                }
                assert(last_call_at(prev, i));
                assert(mp.contains_key(id));
            }
        }
    }
}

/// After a container is registered, a stop event for it leaves no record of
/// it: the registry is what it was without the container, and no record of a
/// snapshot, so no line of the rendered block, comes from it.
pub proof fn lemma_stop_removes(
    m: Map<Seq<char>, Seq<Seq<char>>>,
    id: Seq<char>,
    hosts: Seq<Seq<char>>,
)
    requires
        id.len() > 0,
    ensures
        !apply_op(apply_op(m, RegistryOp::Upsert(id, hosts)), RegistryOp::Remove(id)).contains_key(id),
        apply_op(apply_op(m, RegistryOp::Upsert(id, hosts)), RegistryOp::Remove(id)) == m.remove(id),
        forall|es: Seq<(Seq<char>, Seq<Seq<char>>)>, i: int|
            is_snapshot(es, apply_op(apply_op(m, RegistryOp::Upsert(id, hosts)), RegistryOp::Remove(id)))
                && 0 <= i < es.len() ==> #[trigger] es[i].0 != id,
{
    let m2 = apply_op(apply_op(m, RegistryOp::Upsert(id, hosts)), RegistryOp::Remove(id));
    assert(m2 =~= m.remove(id));
    assert forall|es: Seq<(Seq<char>, Seq<Seq<char>>)>, i: int|
        is_snapshot(es, m2) && 0 <= i < es.len() implies #[trigger] es[i].0 != id by {
        assert(m2.contains_key(es[i].0));
    }
}

/// A stop event for a container that was never registered leaves the
/// registry as it was.
pub proof fn lemma_untracked_stop(m: Map<Seq<char>, Seq<Seq<char>>>, id: Seq<char>)
    requires
        !m.contains_key(id),
    ensures
        apply_op(m, RegistryOp::Remove(id)) == m,
{
    assert(m.remove(id) =~= m);
}

} // verus!
