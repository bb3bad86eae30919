//! Flattening a JSON document breadth first: every node with the path of
//! member names that leads to it (array elements keep the path of their
//! array), level after level.

use vstd::prelude::*;
use crate::json::{field_name, json_views, lemma_json_views, lemma_member_views, member_views, path_name, string_views, Json, JsonV};

verus! {

/// A node of a document: the path that leads to it and the node.
pub type Node = (Seq<Seq<char>>, JsonV);

/// The number of nodes of a document.
pub open spec fn json_size(j: JsonV) -> nat
    decreases j,
{
    match j {
        JsonV::Array(items) => 1 + items_size(items),
        JsonV::Object(ms) => 1 + members_size(ms),
        _ => 1,
    }
}

/// The number of nodes of a list of documents.
pub open spec fn items_size(items: Seq<JsonV>) -> nat
    decreases items,
{
    if items.len() == 0 {
        0
    } else {
        json_size(items[0]) + items_size(items.drop_first())
    }
}

/// The number of nodes of the values of object members.
pub open spec fn members_size(ms: Seq<(Seq<char>, JsonV)>) -> nat
    decreases ms,
{
    if ms.len() == 0 {
        0
    } else {
        json_size(ms[0].1) + members_size(ms.drop_first())
    }
}

/// The number of nodes below the nodes of a queue, the nodes included.
pub open spec fn queue_size(q: Seq<Node>) -> nat
    decreases q.len(),
{
    if q.len() == 0 {
        0
    } else {
        json_size(q[0].1) + queue_size(q.drop_first())
    }
}

/// The nodes directly below a node: the elements of an array, with the
/// array's path; the members of an object, with their name added to it.
pub open spec fn children(n: Node) -> Seq<Node> {
    match n.1 {
        JsonV::Array(items) => items.map_values(|x: JsonV| (n.0, x)),
        JsonV::Object(ms) => ms.map_values(|m: (Seq<char>, JsonV)| (n.0.push(m.0), m.1)),
        _ => Seq::empty(),
    }
}

pub proof fn lemma_queue_size_append(a: Seq<Node>, b: Seq<Node>)
    ensures
        queue_size(a + b) == queue_size(a) + queue_size(b),
    decreases a.len(),
{
    if a.len() > 0 {
        assert((a + b).drop_first() =~= a.drop_first() + b);
        lemma_queue_size_append(a.drop_first(), b);
    } else {
        assert(a + b =~= b);
    }
}

pub proof fn lemma_items_queue(p: Seq<Seq<char>>, items: Seq<JsonV>)
    ensures
        queue_size(items.map_values(|x: JsonV| (p, x))) == items_size(items),
    decreases items.len(),
{
    if items.len() > 0 {
        assert(items.map_values(|x: JsonV| (p, x)).drop_first() =~= items.drop_first().map_values(|x: JsonV| (p, x)));
        lemma_items_queue(p, items.drop_first());
    }
}

pub proof fn lemma_members_queue(p: Seq<Seq<char>>, ms: Seq<(Seq<char>, JsonV)>)
    ensures
        queue_size(ms.map_values(|m: (Seq<char>, JsonV)| (p.push(m.0), m.1))) == members_size(ms),
    decreases ms.len(),
{
    if ms.len() > 0 {
        assert(ms.map_values(|m: (Seq<char>, JsonV)| (p.push(m.0), m.1)).drop_first() =~= ms.drop_first().map_values(
            |m: (Seq<char>, JsonV)| (p.push(m.0), m.1),
        ));
        lemma_members_queue(p, ms.drop_first());
    }
}

/// The nodes below a node weigh one less than the node.
pub proof fn lemma_children_size(n: Node)
    ensures
        queue_size(children(n)) + 1 == json_size(n.1),
{
    match n.1 {
        JsonV::Array(items) => lemma_items_queue(n.0, items),
        JsonV::Object(ms) => lemma_members_queue(n.0, ms),
        _ => {},
    }
}

/// Taking the first node of a queue and adding its children at the end
/// leaves less to visit.
pub proof fn lemma_bfs_step(q: Seq<Node>)
    requires
        q.len() > 0,
    ensures
        queue_size(q.drop_first() + children(q[0])) < queue_size(q),
{
    lemma_queue_size_append(q.drop_first(), children(q[0]));
    lemma_children_size(q[0]);
}

/// The nodes reached from a queue, breadth first: the first node, then
/// those reached from the rest of the queue followed by its children.
pub open spec fn bfs(q: Seq<Node>) -> Seq<Node>
    decreases queue_size(q),
{
    if q.len() == 0 {
        Seq::empty()
    } else {
        proof {
            lemma_bfs_step(q);
        }
        seq![q[0]] + bfs(q.drop_first() + children(q[0]))
    }
}

/// The nodes of a document, breadth first, from the empty path.
pub open spec fn nodes_of(j: JsonV) -> Seq<Node> {
    bfs(seq![(Seq::<Seq<char>>::empty(), j)])
}

/// Whether a node holds a value rather than other nodes.
pub open spec fn is_scalar(j: JsonV) -> bool {
    !(j is Array) && !(j is Object)
}

/// The field names and values of the scalar nodes, in order.
pub open spec fn scalar_fields(ns: Seq<Node>) -> Seq<(Seq<char>, JsonV)>
    decreases ns.len(),
{
    if ns.len() == 0 {
        Seq::empty()
    } else if is_scalar(ns.last().1) {
        scalar_fields(ns.drop_last()).push((field_name(ns.last().0), ns.last().1))
    } else {
        scalar_fields(ns.drop_last())
    }
}

/// The names, each at its first place only.
pub open spec fn dedup(names: Seq<Seq<char>>) -> Seq<Seq<char>>
    decreases names.len(),
{
    if names.len() == 0 {
        Seq::empty()
    } else if dedup(names.drop_last()).contains(names.last()) {
        dedup(names.drop_last())
    } else {
        dedup(names.drop_last()).push(names.last())
    }
}

/// The field names of nodes, in order.
pub open spec fn node_names(ns: Seq<Node>) -> Seq<Seq<char>> {
    ns.map_values(|n: Node| field_name(n.0))
}

/// The field names and scalar values of a document, breadth first.
pub open spec fn flat_values(j: JsonV) -> Seq<(Seq<char>, JsonV)> {
    scalar_fields(nodes_of(j))
}

/// The field names of a document, breadth first, each once; containers
/// included.
pub open spec fn flat_fields(j: JsonV) -> Seq<Seq<char>> {
    dedup(node_names(nodes_of(j)))
}

/// The value of a queue of nodes held as paths and documents.
pub open spec fn node_views(q: Seq<(Vec<String>, Json)>) -> Seq<Node> {
    q.map_values(|n: (Vec<String>, Json)| (string_views(n.0@), n.1@))
}

/// A copy of a path with one more name.
fn extended(path: &Vec<String>, name: &String) -> (r: Vec<String>)
    ensures
        string_views(r@) == string_views(path@).push(name@),
{
    let mut r: Vec<String> = Vec::new();
    let n = path.len();
    for i in 0..n
        invariant
            n == path@.len(),
            string_views(r@) == string_views(path@).take(i as int),
    {
        let ghost before = string_views(r@);
        r.push(path[i].clone());
        assert(string_views(r@) =~= before.push(path@[i as int]@));
        assert(string_views(path@).take(i + 1) =~= string_views(path@).take(i as int).push(path@[i as int]@));
    }
    assert(string_views(path@).take(n as int) =~= string_views(path@));
    let ghost before = string_views(r@);
    r.push(name.clone());
    assert(string_views(r@) =~= before.push(name@));
    r
}

/// Appends the children of a node to a queue.
fn push_children(queue: &mut Vec<(Vec<String>, Json)>, path: &Vec<String>, j: &Json)
    ensures
        node_views(final(queue)@) == node_views(old(queue)@) + children((string_views(path@), j@)),
{
    let ghost before = node_views(queue@);
    match j {
        Json::Array(items) => {
            proof {
                lemma_json_views(items@);
            }
            let n = items.len();
            for i in 0..n
                invariant
                    n == items@.len(),
                    json_views(items@).len() == n,
                    forall|k: int| 0 <= k < n ==> #[trigger] json_views(items@)[k] == items@[k]@,
                    node_views(queue@) == before + json_views(items@).take(i as int).map_values(
                        |x: JsonV| (string_views(path@), x),
                    ),
            {
                let ghost mid = node_views(queue@);
                queue.push((extended_none(path), items[i].duplicate()));
                assert(node_views(queue@) =~= mid.push((string_views(path@), items@[i as int]@)));
                assert(json_views(items@).take(i + 1).map_values(|x: JsonV| (string_views(path@), x)) =~= json_views(items@).take(
                    i as int,
                ).map_values(|x: JsonV| (string_views(path@), x)).push((string_views(path@), items@[i as int]@)));
            }
            assert(json_views(items@).take(n as int) =~= json_views(items@));
        },
        Json::Object(ms) => {
            proof {
                lemma_member_views(ms@);
            }
            let n = ms.len();
            for i in 0..n
                invariant
                    n == ms@.len(),
                    member_views(ms@).len() == n,
                    forall|k: int| 0 <= k < n ==> #[trigger] member_views(ms@)[k] == (ms@[k].0@, ms@[k].1@),
                    node_views(queue@) == before + member_views(ms@).take(i as int).map_values(
                        |m: (Seq<char>, JsonV)| (string_views(path@).push(m.0), m.1),
                    ),
            {
                let ghost mid = node_views(queue@);
                queue.push((extended(path, &ms[i].0), ms[i].1.duplicate()));
                assert(node_views(queue@) =~= mid.push((string_views(path@).push(ms@[i as int].0@), ms@[i as int].1@)));
                assert(member_views(ms@).take(i + 1).map_values(|m: (Seq<char>, JsonV)| (string_views(path@).push(m.0), m.1))
                    =~= member_views(ms@).take(i as int).map_values(
                    |m: (Seq<char>, JsonV)| (string_views(path@).push(m.0), m.1),
                ).push((string_views(path@).push(ms@[i as int].0@), ms@[i as int].1@)));
            }
            assert(member_views(ms@).take(n as int) =~= member_views(ms@));
        },
        _ => {
            assert(node_views(queue@) =~= before + children((string_views(path@), j@)));
        },
    }
}

/// A copy of a path.
fn extended_none(path: &Vec<String>) -> (r: Vec<String>)
    ensures
        string_views(r@) == string_views(path@),
{
    let mut r: Vec<String> = Vec::new();
    let n = path.len();
    for i in 0..n
        invariant
            n == path@.len(),
            string_views(r@) == string_views(path@).take(i as int),
    {
        let ghost before = string_views(r@);
        r.push(path[i].clone());
        assert(string_views(r@) =~= before.push(path@[i as int]@));
        assert(string_views(path@).take(i + 1) =~= string_views(path@).take(i as int).push(path@[i as int]@));
    }
    assert(string_views(path@).take(n as int) =~= string_views(path@));
    r
}

/// The nodes of a document, breadth first (see [`nodes_of`]).
pub fn flat_nodes(j: &Json) -> (r: Vec<(Vec<String>, Json)>)
    ensures
        node_views(r@) == nodes_of(j@),
{
    let mut queue: Vec<(Vec<String>, Json)> = Vec::new();
    let p0: Vec<String> = Vec::new();
    assert(string_views(p0@) =~= Seq::<Seq<char>>::empty());
    queue.push((p0, j.duplicate()));
    let ghost q0 = node_views(queue@);
    assert(q0 =~= seq![(Seq::<Seq<char>>::empty(), j@)]);
    let mut out: Vec<(Vec<String>, Json)> = Vec::new();
    let mut head: usize = 0;
    assert(node_views(queue@).skip(0) =~= q0);
    while head < queue.len()
        invariant
            head <= queue@.len(),
            node_views(out@) + bfs(node_views(queue@).skip(head as int)) == nodes_of(j@),
        decreases queue_size(node_views(queue@).skip(head as int)),
    {
        let ghost q = node_views(queue@).skip(head as int);
        proof {
            lemma_bfs_step(q);
        }
        let path = extended_none(&queue[head].0);
        let node = queue[head].1.duplicate();
        assert(q[0] == (string_views(path@), node@));
        let ghost before_out = node_views(out@);
        out.push((extended_none(&path), node.duplicate()));
        assert(node_views(out@) =~= before_out.push(q[0]));
        let ghost before_queue = node_views(queue@);
        push_children(&mut queue, &path, &node);
        head = head + 1;
        assert(node_views(queue@).skip(head as int) =~= q.drop_first() + children(q[0]));
        assert(before_out.push(q[0]) + bfs(q.drop_first() + children(q[0])) =~= before_out + (seq![q[0]] + bfs(
            q.drop_first() + children(q[0]),
        )));
    }
    assert(node_views(queue@).skip(head as int) =~= Seq::<Node>::empty());
    assert(node_views(out@) + Seq::<Node>::empty() =~= node_views(out@));
    out
}

/// The views of named documents.
pub open spec fn named_views(v: Seq<(String, Json)>) -> Seq<(Seq<char>, JsonV)> {
    v.map_values(|x: (String, Json)| (x.0@, x.1@))
}

/// The field names and scalar values of a document, breadth first, handed
/// out one at a time.
pub struct FlatJsonValueIterator {
    items: Vec<(String, Json)>,
    pos: usize,
}

impl View for FlatJsonValueIterator {
    type V = Seq<(Seq<char>, JsonV)>;

    closed spec fn view(&self) -> Seq<(Seq<char>, JsonV)> {
        named_views(self.items@).skip(self.pos as int)
    }
}

impl FlatJsonValueIterator {
    #[verifier::type_invariant]
    closed spec fn within(self) -> bool {
        self.pos <= self.items@.len()
    }
    /// The field names and scalar values of a document (see
    /// [`flat_values`]).
    pub fn new(v: &Json) -> (r: FlatJsonValueIterator)
        ensures
            r@ == flat_values(v@),
    {
        let nodes = flat_nodes(v);
        let ghost nv = node_views(nodes@);
        let mut items: Vec<(String, Json)> = Vec::new();
        let n = nodes.len();
        assert(nv.take(0) =~= Seq::<Node>::empty());
        for i in 0..n
            invariant
                n == nodes@.len(),
                nv == node_views(nodes@),
                named_views(items@) == scalar_fields(nv.take(i as int)),
        {
            assert(nv.take(i + 1).drop_last() =~= nv.take(i as int));
            assert(nv.take(i + 1).last() == nv[i as int]);
            let ghost before = named_views(items@);
            let scalar = match &nodes[i].1 {
                Json::Array(_) => false,
                Json::Object(_) => false,
                _ => true,
            };
            if scalar {
                let name = path_name(&nodes[i].0, nodes[i].0.len());
                assert(string_views(nodes@[i as int].0@).take(nodes@[i as int].0@.len() as int) =~= nv[i as int].0);
                items.push((crate::text::string_from_chars(&name), nodes[i].1.duplicate()));
                assert(named_views(items@) =~= before.push((field_name(nv[i as int].0), nv[i as int].1)));
            }
        }
        assert(nv.take(n as int) =~= nv);
        let r = FlatJsonValueIterator { items, pos: 0 };
        assert(named_views(r.items@).skip(0) =~= named_views(r.items@));
        r
    }

    /// The next field name and value, if any is left.
    pub fn next(&mut self) -> (r: Option<(String, Json)>)
        ensures
            match r {
                Some(x) => old(self)@.len() > 0 && (x.0@, x.1@) == old(self)@[0] && final(self)@ == old(self)@.drop_first(),
                None => old(self)@.len() == 0 && final(self)@ == old(self)@,
            },
    {
        proof {
            use_type_invariant(&*self);
        }
        if self.pos < self.items.len() {
            let x = (self.items[self.pos].0.clone(), self.items[self.pos].1.duplicate());
            let ghost before = self@;
            self.pos = self.pos + 1;
            assert(self@ =~= before.drop_first());
            Some(x)
        } else {
            None
        }
    }
}

/// The field names of a document, breadth first, each once, handed out one
/// at a time.
pub struct FlatJsonFieldIterator {
    fields: Vec<String>,
    pos: usize,
}

impl View for FlatJsonFieldIterator {
    type V = Seq<Seq<char>>;

    closed spec fn view(&self) -> Seq<Seq<char>> {
        string_views(self.fields@).skip(self.pos as int)
    }
}

impl FlatJsonFieldIterator {
    #[verifier::type_invariant]
    closed spec fn within(self) -> bool {
        self.pos <= self.fields@.len()
    }
    /// The field names of a document (see [`flat_fields`]).
    pub fn new(v: &Json) -> (r: FlatJsonFieldIterator)
        ensures
            r@ == flat_fields(v@),
    {
        let nodes = flat_nodes(v);
        let ghost nv = node_views(nodes@);
        let ghost names = node_names(nv);
        let mut fields: Vec<String> = Vec::new();
        let mut seen: Vec<Vec<char>> = Vec::new();
        let n = nodes.len();
        assert(names.take(0) =~= Seq::<Seq<char>>::empty());
        for i in 0..n
            invariant
                n == nodes@.len(),
                nv == node_views(nodes@),
                names == node_names(nv),
                string_views(fields@) == dedup(names.take(i as int)),
                crate::idset::texts(seen@) == dedup(names.take(i as int)),
        {
            assert(names.take(i + 1).drop_last() =~= names.take(i as int));
            assert(names.take(i + 1).last() == field_name(nv[i as int].0));
            let name = path_name(&nodes[i].0, nodes[i].0.len());
            assert(string_views(nodes@[i as int].0@).take(nodes@[i as int].0@.len() as int) =~= nv[i as int].0);
            let mut found = false;
            let m = seen.len();
            for k in 0..m
                invariant
                    m == seen@.len(),
                    found <==> exists|q: int| 0 <= q < k && seen@[q]@ == name@,
            {
                if crate::text::chars_eq(&seen[k], &name) {
                    found = true;
                }
            }
            proof {
                if crate::idset::texts(seen@).contains(name@) {
                    let q = choose|q: int| 0 <= q < crate::idset::texts(seen@).len() && crate::idset::texts(seen@)[q] == name@;
                    assert(seen@[q]@ == name@);
                }
                if found {
                    let q = choose|q: int| 0 <= q < m && seen@[q]@ == name@;
                    assert(crate::idset::texts(seen@)[q] == name@);
                }
            }
            if !found {
                let ghost b1 = string_views(fields@);
                let ghost b2 = crate::idset::texts(seen@);
                fields.push(crate::text::string_from_chars(&name));
                seen.push(name);
                assert(string_views(fields@) =~= b1.push(field_name(nv[i as int].0)));
                assert(crate::idset::texts(seen@) =~= b2.push(field_name(nv[i as int].0)));
            }
        }
        assert(names.take(n as int) =~= names);
        let r = FlatJsonFieldIterator { fields, pos: 0 };
        assert(string_views(r.fields@).skip(0) =~= string_views(r.fields@));
        r
    }

    /// The next field name, if any is left.
    pub fn next(&mut self) -> (r: Option<String>)
        ensures
            match r {
                Some(x) => old(self)@.len() > 0 && x@ == old(self)@[0] && final(self)@ == old(self)@.drop_first(),
                None => old(self)@.len() == 0 && final(self)@ == old(self)@,
            },
    {
        proof {
            use_type_invariant(&*self);
        }
        if self.pos < self.fields.len() {
            let x = self.fields[self.pos].clone();
            let ghost before = self@;
            self.pos = self.pos + 1;
            assert(self@ =~= before.drop_first());
            Some(x)
        } else {
            None
        }
    }
}

} // verus!
