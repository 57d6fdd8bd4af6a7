//! Name table and file tree of an archive that is written.
use crate::bytes::{be_bytes, put_be, put_slice};
use crate::utils::paths::texts;
use crate::utils::text::{
    chars_less, lower, lower_chars, text_less, text_less_irreflexive, text_less_total,
    text_less_transitive,
};
use crate::zar::format::{encode_windows_1252, win1252_byte};
use crate::zar::tree::{indices, tree_model, NodeModel, TreeModel, TreeNode};
use vstd::multiset::*;
use vstd::prelude::*;
use vstd::seq_lib::*;
use vstd::string::*;

verus! {

broadcast use crate::bytes::group_fields;

/// The bytes of a name, cut off where its length no longer fits.
pub open spec fn stored_name(name: Seq<char>) -> Seq<u8> {
    let b = name.map_values(|c: char| win1252_byte(c));
    if b.len() <= 0x7FFF {
        b
    } else {
        b.take(0x7FFF)
    }
}

/// One entry of the name table: length in one byte, or in two from 0x80 on, then the name.
pub open spec fn name_entry(name: Seq<char>) -> Seq<u8> {
    let b = stored_name(name);
    let n = b.len() as int;
    (if n >= 0x80 {
        seq![(n % 0x80 + 0x80) as u8, (n / 0x80) as u8]
    } else {
        seq![n as u8]
    }) + b
}

/// The entries of the first `k` names.
pub open spec fn name_table(names: Seq<Seq<char>>, k: int) -> Seq<u8>
    decreases k,
{
    if k <= 0 {
        Seq::empty()
    } else {
        name_table(names, k - 1) + name_entry(names[k - 1])
    }
}

/// Where the entry of name `i` starts.
pub open spec fn name_offset(names: Seq<Seq<char>>, i: int) -> int {
    name_table(names, i).len() as int
}

pub proof fn lemma_name_table_grows(names: Seq<Seq<char>>, i: int, j: int)
    requires
        0 <= i <= j,
    ensures
        name_table(names, i).len() <= name_table(names, j).len(),
        name_table(names, j).take(name_table(names, i).len() as int) == name_table(names, i),
    decreases j,
{
    if i < j {
        lemma_name_table_grows(names, i, j - 1);
        let a = name_table(names, i);
        let b = name_table(names, j - 1);
        let c = name_table(names, j);
        assert(c.take(a.len() as int) =~= b.take(a.len() as int));
    } else {
        assert(name_table(names, j).take(name_table(names, i).len() as int) =~= name_table(
            names,
            i,
        ));
    }
}

/// The name table, and where each name starts in it.
pub fn build_name_table(names: &[String]) -> (r: (Vec<u8>, Vec<u32>))
    requires
        name_table(texts(names@), names@.len() as int).len() <= u32::MAX,
    ensures
        r.0@ == name_table(texts(names@), names@.len() as int),
        r.1@.len() == names@.len(),
        forall|i: int| 0 <= i < names@.len() ==> r.1@[i] == name_offset(texts(names@), i),
{
    let ghost t = texts(names@);
    let mut table: Vec<u8> = Vec::new();
    let mut offsets: Vec<u32> = Vec::new();
    let mut i: usize = 0;
    while i < names.len()
        invariant
            i <= names@.len(),
            t == texts(names@),
            name_table(t, names@.len() as int).len() <= u32::MAX,
            table@ == name_table(t, i as int),
            offsets@.len() == i,
            forall|j: int| 0 <= j < i ==> offsets@[j] == name_offset(t, j),
        decreases names@.len() - i,
    {
        proof {
            lemma_name_table_grows(t, i as int, names@.len() as int);
            assert(t[i as int] == names@[i as int]@);
        }
        offsets.push(table.len() as u32);
        let full = encode_windows_1252(names[i].as_str());
        let len: usize = if full.len() < 0x7FFF {
            full.len()
        } else {
            0x7FFF
        };
        let stored = crate::bytes::copy_range(full.as_slice(), 0, len);
        assert(stored@ =~= stored_name(t[i as int]));
        if len >= 0x80 {
            table.push((len % 0x80 + 0x80) as u8);
            table.push((len / 0x80) as u8);
        } else {
            table.push(len as u8);
        }
        put_slice(&mut table, stored.as_slice());
        assert(table@ =~= name_table(t, i as int) + name_entry(t[i as int]));
        i = i + 1;
    }
    (table, offsets)
}

/// The offsets into the name table of `names` are counted in 32 bits.
pub fn name_table_fits(names: &[String]) -> (r: bool)
    ensures
        r == (name_table(texts(names@), names@.len() as int).len() <= u32::MAX),
{
    let ghost t = texts(names@);
    let mut total: u64 = 0;
    let mut i: usize = 0;
    while i < names.len()
        invariant
            i <= names@.len(),
            t == texts(names@),
            total == name_table(t, i as int).len(),
            total <= u32::MAX,
        decreases names@.len() - i,
    {
        assert(t[i as int] == names@[i as int]@);
        let n: usize = names[i].as_str().unicode_len();
        let len: u64 = if n < 0x7FFF {
            n as u64
        } else {
            0x7FFF
        };
        total = total + len + (if len >= 0x80 {
            2
        } else {
            1
        });
        i = i + 1;
        assert(total == name_table(t, i as int).len());
        if total > 0xFFFF_FFFF {
            proof {
                lemma_name_table_grows(t, i as int, names@.len() as int);
            }
            return false;
        }
    }
    true
}

/// What siblings are sorted by.
pub open spec fn sort_key(t: TreeModel, i: int) -> Seq<char> {
    lower(t.name(i))
}

/// Nodes in the order of their names, no two alike.
pub open spec fn in_name_order(t: TreeModel, v: Seq<int>) -> bool {
    forall|j: int, k: int|
        0 <= j < k < v.len() ==> text_less(
            sort_key(t, #[trigger] v[j]),
            sort_key(t, #[trigger] v[k]),
        )
}

/// `u` is `t` with the children of every directory in the order of their names.
pub open spec fn is_sorted_tree(t: TreeModel, u: TreeModel) -> bool {
    &&& u.names == t.names
    &&& u.nodes.len() == t.nodes.len()
    &&& forall|i: int|
        0 <= i < t.nodes.len() ==> {
            let a = t.nodes[i];
            let b = #[trigger] u.nodes[i];
            &&& b == (NodeModel { children: b.children, ..a })
            &&& b.children.to_multiset() == a.children.to_multiset()
            &&& in_name_order(t, b.children)
        }
}

fn key_of(nodes: &Vec<TreeNode>, names: &Vec<String>, i: usize) -> (r: Vec<char>)
    requires
        i < nodes@.len(),
        nodes@[i as int].name_index < names@.len(),
    ensures
        r@ == sort_key(tree_model(nodes@, names@), i as int),
{
    let ghost t = tree_model(nodes@, names@);
    assert(t.nodes[i as int] == nodes@[i as int].model());
    lower_chars(names[nodes[i].name_index].as_str())
}

/// `x` is one of the first `n` of `v`.
spec fn among_first(v: Seq<usize>, n: int, x: usize) -> bool {
    exists|k: int| 0 <= k < n && #[trigger] v[k] == x
}

/// The children of node `at`, in the order of their names.
fn sorted_children(nodes: &Vec<TreeNode>, names: &Vec<String>, at: usize) -> (r: Vec<usize>)
    requires
        tree_model(nodes@, names@).wf(),
        at < nodes@.len(),
    ensures
        indices(r@).to_multiset() == indices(nodes@[at as int].children@).to_multiset(),
        in_name_order(tree_model(nodes@, names@), indices(r@)),
{
    let ghost t = tree_model(nodes@, names@);
    let v = &nodes[at].children;
    let ghost iv = indices(v@);
    assert(t.nodes[at as int] == nodes@[at as int].model());
    let mut r: Vec<usize> = Vec::new();
    let mut i: usize = 0;
    assert(indices(r@) =~= iv.take(0));
    while i < v.len()
        invariant
            i <= v@.len(),
            at < nodes@.len(),
            v@ == nodes@[at as int].children@,
            t == tree_model(nodes@, names@),
            t.wf(),
            t.nodes[at as int] == nodes@[at as int].model(),
            iv == indices(v@),
            indices(r@).to_multiset() == iv.take(i as int).to_multiset(),
            in_name_order(t, indices(r@)),
        decreases v@.len() - i,
    {
        broadcast use group_to_multiset_ensures;

        let x: usize = v[i];
        proof {
            lemma_child_is_node(nodes@, names@, at as int, i as int);
            assert(iv.take(i + 1) =~= iv.take(i as int).push(x as int));
        }
        let key = key_of(nodes, names, x);
        let mut pos: usize = 0;
        proof {
            assert forall|j: int| 0 <= j < r@.len() implies among_first(
                v@,
                i as int,
                #[trigger] r@[j],
            ) by {
                assert(indices(r@)[j] == r@[j] as int);
                assert(indices(r@).contains(r@[j] as int));
                assert(iv.take(i as int).contains(r@[j] as int)) by {
                    assert(indices(r@).to_multiset().count(r@[j] as int) > 0);
                    assert(iv.take(i as int).to_multiset().count(r@[j] as int) > 0);
                }
                let k = choose|k: int|
                    0 <= k < iv.take(i as int).len() && iv.take(i as int)[k] == r@[j] as int;
                assert(v@[k] == r@[j]);
            }
        }
        while pos < r.len()
            invariant
                pos <= r@.len(),
                i < v@.len(),
                at < nodes@.len(),
                x == v@[i as int],
                v@ == nodes@[at as int].children@,
                t == tree_model(nodes@, names@),
                t.wf(),
                t.nodes[at as int] == nodes@[at as int].model(),
                key@ == sort_key(t, x as int),
                forall|j: int| 0 <= j < r@.len() ==> among_first(v@, i as int, #[trigger] r@[j]),
                forall|j: int|
                    0 <= j < pos ==> text_less(sort_key(t, #[trigger] r@[j] as int), key@),
            ensures
                pos <= r@.len(),
                pos < r@.len() ==> text_less(key@, sort_key(t, r@[pos as int] as int)),
                forall|j: int|
                    0 <= j < pos ==> text_less(sort_key(t, #[trigger] r@[j] as int), key@),
            decreases r@.len() - pos,
        {
            let y: usize = r[pos];
            proof {
                assert(among_first(v@, i as int, r@[pos as int]));
                let k = choose|k: int| 0 <= k < i && #[trigger] v@[k] == r@[pos as int];
                lemma_child_is_node(nodes@, names@, at as int, k);
                assert(t.nodes[at as int].children[k] == y as int);
                assert(t.nodes[at as int].children[i as int] == x as int);
                assert(sort_key(t, y as int) != sort_key(t, x as int));
                text_less_total(sort_key(t, y as int), sort_key(t, x as int));
            }
            let other = key_of(nodes, names, y);
            if chars_less(&key, &other) {
                break;
            }
            pos = pos + 1;
        }
        let ghost before = r@;
        r.insert(pos, x);
        proof {
            assert(indices(r@) =~= indices(before).insert(pos as int, x as int));
            let ir = indices(r@);
            let ib = indices(before);
            assert forall|j: int, k: int| 0 <= j < k < ir.len() implies text_less(
                sort_key(t, #[trigger] ir[j]),
                sort_key(t, #[trigger] ir[k]),
            ) by {
                if j < pos && k < pos {
                    assert(text_less(sort_key(t, ib[j]), sort_key(t, ib[k])));
                } else if j < pos && k == pos {
                    assert(before[j] as int == ir[j]);
                } else if j < pos {
                    assert(text_less(sort_key(t, ib[j]), sort_key(t, ib[k - 1])));
                } else if j == pos {
                    assert(ir[k] == ib[k - 1]);
                    if k - 1 > pos {
                        assert(text_less(sort_key(t, ib[pos as int]), sort_key(t, ib[k - 1])));
                        text_less_transitive(
                            key@,
                            sort_key(t, ib[pos as int]),
                            sort_key(t, ib[k - 1]),
                        );
                    }
                } else {
                    assert(text_less(sort_key(t, ib[j - 1]), sort_key(t, ib[k - 1])));
                }
            }
        }
        i = i + 1;
    }
    assert(iv.take(i as int) =~= iv);
    r
}

proof fn lemma_child_is_node(nodes: Seq<TreeNode>, names: Seq<String>, p: int, j: int)
    requires
        tree_model(nodes, names).wf(),
        0 <= p < nodes.len(),
        0 <= j < nodes[p].children@.len(),
    ensures
        1 <= nodes[p].children@[j] < nodes.len(),
        nodes[nodes[p].children@[j] as int].name_index < names.len(),
        nodes[nodes[p].children@[j] as int].parent == p,
{
    let t = tree_model(nodes, names);
    assert(t.nodes[p] == nodes[p].model());
    let c = t.nodes[p].children[j];
    assert(1 <= c < t.nodes.len());
    assert(t.nodes[c] == nodes[c].model());
    assert(0 <= t.nodes[c].name_index < t.names.len());
}

pub proof fn lemma_sorted_tree_wf(t: TreeModel, u: TreeModel)
    requires
        t.wf(),
        is_sorted_tree(t, u),
    ensures
        u.wf(),
        forall|i: int| 0 <= i < t.nodes.len() ==> #[trigger] u.name(i) == t.name(i),
        forall|i: int| 0 <= i < t.nodes.len() ==> #[trigger] u.path(i) == t.path(i),
{
    broadcast use group_to_multiset_ensures;

    assert forall|i: int| 0 <= i < t.nodes.len() implies #[trigger] u.name(i) == t.name(i) by {
        assert(u.nodes[i].name_index == t.nodes[i].name_index);
    }
    assert forall|i: int| 1 <= i < u.nodes.len() implies ({
        let n = #[trigger] u.nodes[i];
        &&& 0 <= n.parent < i
        &&& !u.nodes[n.parent].is_file
        &&& u.nodes[n.parent].children.contains(i)
        &&& 0 <= n.name_index < u.names.len()
    }) by {
        let p = t.nodes[i].parent;
        assert(t.nodes[p].children.contains(i));
        assert(u.nodes[p].children.to_multiset() == t.nodes[p].children.to_multiset());
        assert(t.nodes[p].children.to_multiset().count(i) > 0);
    }
    assert forall|p: int, j: int|
        0 <= p < u.nodes.len() && 0 <= j < u.nodes[p].children.len() implies ({
        let c = #[trigger] u.nodes[p].children[j];
        &&& 1 <= c < u.nodes.len()
        &&& u.nodes[c].parent == p
        &&& !u.nodes[p].is_file
    }) by {
        let c = u.nodes[p].children[j];
        assert(u.nodes[p].children.contains(c));
        assert(u.nodes[p].children.to_multiset().count(c) > 0);
        assert(t.nodes[p].children.to_multiset().count(c) > 0);
        assert(t.nodes[p].children.contains(c));
        let k = choose|k: int| 0 <= k < t.nodes[p].children.len() && t.nodes[p].children[k] == c;
        assert(1 <= t.nodes[p].children[k] < t.nodes.len());
        assert(u.nodes[c].parent == t.nodes[c].parent);
    }
    assert forall|p: int, j: int, k: int|
        0 <= p < u.nodes.len() && 0 <= j < k < u.nodes[p].children.len() implies lower(
        u.name(#[trigger] u.nodes[p].children[j]),
    ) != lower(u.name(#[trigger] u.nodes[p].children[k])) by {
        let a = u.nodes[p].children[j];
        let b = u.nodes[p].children[k];
        assert(in_name_order(t, u.nodes[p].children));
        assert(text_less(sort_key(t, a), sort_key(t, b)));
        text_less_irreflexive(sort_key(t, a));
        assert(1 <= a < u.nodes.len() && 1 <= b < u.nodes.len());
        assert(u.name(a) == t.name(a) && u.name(b) == t.name(b));
    }
    assert forall|i: int| 0 <= i < t.nodes.len() implies #[trigger] u.path(i) == t.path(i) by {
        lemma_sorted_path(t, u, i);
    }
}

proof fn lemma_sorted_path(t: TreeModel, u: TreeModel, i: int)
    requires
        t.wf(),
        is_sorted_tree(t, u),
        0 <= i < t.nodes.len(),
    ensures
        u.path(i) == t.path(i),
    decreases i,
{
    assert(u.nodes[i].parent == t.nodes[i].parent);
    assert(u.nodes[i].name_index == t.nodes[i].name_index);
    if i > 0 {
        lemma_sorted_path(t, u, t.nodes[i].parent);
    }
}

/// Sorts the children of every directory by name.
pub fn sort_tree(nodes: &mut Vec<TreeNode>, names: &Vec<String>)
    requires
        tree_model(old(nodes)@, names@).wf(),
    ensures
        is_sorted_tree(tree_model(old(nodes)@, names@), tree_model(final(nodes)@, names@)),
        tree_model(final(nodes)@, names@).wf(),
        final(nodes)@.len() == old(nodes)@.len(),
{
    let ghost t = tree_model(nodes@, names@);
    let n: usize = nodes.len();
    let ghost start = nodes@;
    let mut sorted: Vec<Vec<usize>> = Vec::new();
    let mut i: usize = 0;
    while i < n
        invariant
            i <= n == nodes@.len(),
            nodes@ == start,
            t == tree_model(nodes@, names@),
            t.wf(),
            sorted@.len() == i,
            forall|j: int|
                0 <= j < i ==> {
                    &&& indices((#[trigger] sorted@[j])@).to_multiset() == indices(
                        nodes@[j].children@,
                    ).to_multiset()
                    &&& in_name_order(t, indices(sorted@[j]@))
                },
        decreases n - i,
    {
        sorted.push(sorted_children(nodes, names, i));
        i = i + 1;
    }
    while i > 0
        invariant
            i <= n == nodes@.len(),
            n == start.len(),
            sorted@.len() == i,
            t == tree_model(start, names@),
            forall|j: int|
                0 <= j < i ==> {
                    &&& indices((#[trigger] sorted@[j])@).to_multiset() == indices(
                        start[j].children@,
                    ).to_multiset()
                    &&& in_name_order(t, indices(sorted@[j]@))
                },
            forall|j: int| 0 <= j < i ==> #[trigger] nodes@[j] == start[j],
            forall|j: int|
                i <= j < n ==> {
                    let b = (#[trigger] nodes@[j]).model();
                    &&& b == (NodeModel { children: b.children, ..start[j].model() })
                    &&& b.children.to_multiset() == indices(start[j].children@).to_multiset()
                    &&& in_name_order(t, b.children)
                },
        decreases i,
    {
        i = i - 1;
        match sorted.pop() {
            Some(v) => {
                nodes[i].children = v;
            },
            None => {},
        }
    }
    proof {
        let u = tree_model(nodes@, names@);
        assert forall|j: int| 0 <= j < t.nodes.len() implies ({
            let a = t.nodes[j];
            let b = #[trigger] u.nodes[j];
            &&& b == (NodeModel { children: b.children, ..a })
            &&& b.children.to_multiset() == a.children.to_multiset()
            &&& in_name_order(t, b.children)
        }) by {
            assert(u.nodes[j] == nodes@[j].model());
            assert(t.nodes[j] == start[j].model());
        }
        lemma_sorted_tree_wf(t, u);
    }
}

/// The children of the first `k` nodes of `order`, in turn.
pub open spec fn children_in_order(t: TreeModel, order: Seq<int>, k: int) -> Seq<int>
    decreases k,
{
    if k <= 0 {
        Seq::empty()
    } else {
        children_in_order(t, order, k - 1) + t.nodes[order[k - 1]].children
    }
}

/// Breadth-first order: the root, then the children of each node in that same order.
pub open spec fn is_breadth_first(t: TreeModel, order: Seq<int>) -> bool {
    &&& order == seq![0int] + children_in_order(t, order, order.len() as int)
    &&& forall|p: int| 0 <= p < order.len() ==> 0 <= #[trigger] order[p] < t.nodes.len()
}

/// Where the children of the node at position `p` start.
pub open spec fn child_start(t: TreeModel, order: Seq<int>, p: int) -> int {
    1 + children_in_order(t, order, p).len() as int
}

/// The 16 bytes of a tree entry.
pub open spec fn tree_entry(t: TreeModel, order: Seq<int>, p: int) -> Seq<u8> {
    let n = t.nodes[order[p]];
    let at = if order[p] == 0 {
        0x7FFF_FFFF
    } else {
        name_offset(t.names, n.name_index) % 0x8000_0000
    };
    if n.is_file {
        be_bytes((0x8000_0000 + at) as nat, 4) + be_bytes(n.offset as nat, 4) + be_bytes(
            n.size as nat,
            4,
        ) + be_bytes(
            (n.offset / 0x1_0000_0000 % 0x1_0000 + n.size / 0x1_0000_0000 % 0x1_0000
                * 0x1_0000) as nat,
            4,
        )
    } else {
        be_bytes(at as nat, 4) + be_bytes(child_start(t, order, p) as nat, 4) + be_bytes(
            n.children.len(),
            4,
        ) + be_bytes(0, 4)
    }
}

/// The entries of the first `k` positions.
pub open spec fn tree_section(t: TreeModel, order: Seq<int>, k: int) -> Seq<u8>
    decreases k,
{
    if k <= 0 {
        Seq::empty()
    } else {
        tree_section(t, order, k - 1) + tree_entry(t, order, k - 1)
    }
}

/// `order` lists distinct nodes, each but the root a child of one before position `k`.
spec fn on_the_way(t: TreeModel, order: Seq<int>, k: int) -> bool {
    &&& order.len() >= 1
    &&& order[0] == 0
    &&& forall|i: int| 0 <= i < order.len() ==> 0 <= #[trigger] order[i] < t.nodes.len()
    &&& forall|i: int, j: int|
        0 <= i < j < order.len() ==> #[trigger] order[i] != #[trigger] order[j]
    &&& forall|i: int| 1 <= i < order.len() ==> #[trigger] parent_before(t, order, i, k)
}

/// The parent of the node at position `i` stands at an earlier position, before `k`.
spec fn parent_before(t: TreeModel, order: Seq<int>, i: int, k: int) -> bool {
    exists|q: int| 0 <= q < k && q < i && #[trigger] order[q] == t.nodes[order[i]].parent
}

proof fn lemma_way_goes_on(t: TreeModel, order: Seq<int>, c: int, head: int)
    requires
        on_the_way(t, order, head + 1),
        0 <= head < order.len(),
        0 <= c < t.nodes.len(),
        t.nodes[c].parent == order[head],
        forall|i: int| 0 <= i < order.len() ==> #[trigger] order[i] != c,
    ensures
        on_the_way(t, order.push(c), head + 1),
{
    let after = order.push(c);
    assert forall|i: int| 1 <= i < after.len() implies #[trigger] parent_before(
        t,
        after,
        i,
        head + 1,
    ) by {
        if i < order.len() {
            assert(parent_before(t, order, i, head + 1));
            let q = choose|q: int|
                0 <= q < head + 1 && q < i && #[trigger] order[q] == t.nodes[order[i]].parent;
            assert(after[q] == order[q] && after[i] == order[i]);
        } else {
            assert(after[head] == order[head]);
        }
    }
}

proof fn lemma_way_step(t: TreeModel, order: Seq<int>, k: int)
    requires
        on_the_way(t, order, k),
    ensures
        on_the_way(t, order, k + 1),
{
    assert forall|i: int| 1 <= i < order.len() implies #[trigger] parent_before(
        t,
        order,
        i,
        k + 1,
    ) by {
        assert(parent_before(t, order, i, k));
        let q = choose|q: int|
            0 <= q < k && q < i && #[trigger] order[q] == t.nodes[order[i]].parent;
        assert(order[q] == t.nodes[order[i]].parent);
    }
}

proof fn lemma_order_extends(t: TreeModel, order: Seq<int>, more: Seq<int>, k: int)
    requires
        0 <= k <= order.len(),
        order.len() <= more.len(),
        forall|i: int| 0 <= i < order.len() ==> more[i] == order[i],
    ensures
        children_in_order(t, more, k) == children_in_order(t, order, k),
    decreases k,
{
    if k > 0 {
        lemma_order_extends(t, order, more, k - 1);
    }
}

pub proof fn lemma_distinct_is_short(order: Seq<int>, n: int)
    requires
        0 <= n,
        forall|i: int| 0 <= i < order.len() ==> 0 <= #[trigger] order[i] < n,
        forall|i: int, j: int|
            0 <= i < j < order.len() ==> #[trigger] order[i] != #[trigger] order[j],
    ensures
        order.len() <= n,
{
    assert(order.no_duplicates());
    order.unique_seq_to_set();
    vstd::set_lib::lemma_int_range(0, n);
    assert(order.to_set().subset_of(vstd::set_lib::set_int_range(0, n)));
    vstd::set_lib::lemma_len_subset(order.to_set(), vstd::set_lib::set_int_range(0, n));
}

/// The nodes in breadth-first order, and where each one's children start.
fn breadth_first(nodes: &Vec<TreeNode>, names: &Vec<String>) -> (r: (Vec<usize>, Vec<u32>))
    requires
        tree_model(nodes@, names@).wf(),
        nodes@.len() <= u32::MAX,
    ensures
        is_breadth_first(tree_model(nodes@, names@), indices(r.0@)),
        r.1@.len() == r.0@.len() <= nodes@.len(),
        forall|p: int| 0 <= p < r.0@.len() ==> (#[trigger] r.0@[p]) < nodes@.len(),
        forall|p: int|
            0 <= p < r.0@.len() ==> #[trigger] r.1@[p] == child_start(
                tree_model(nodes@, names@),
                indices(r.0@),
                p,
            ),
{
    let ghost t = tree_model(nodes@, names@);
    let mut order: Vec<usize> = Vec::new();
    let mut starts: Vec<u32> = Vec::new();
    order.push(0);
    let mut head: usize = 0;
    proof {
        assert(indices(order@) =~= seq![0int]);
        assert(seq![0int] + children_in_order(t, indices(order@), 0) =~= seq![0int]);
    }
    while head < order.len()
        invariant
            t == tree_model(nodes@, names@),
            t.wf(),
            nodes@.len() <= u32::MAX,
            head <= order@.len(),
            starts@.len() == head,
            on_the_way(t, indices(order@), head as int),
            indices(order@) == seq![0int] + children_in_order(t, indices(order@), head as int),
            forall|p: int|
                0 <= p < head ==> #[trigger] starts@[p] == child_start(t, indices(order@), p),
        decreases nodes@.len() - head,
    {
        let ghost io = indices(order@);
        proof {
            lemma_distinct_is_short(io, t.nodes.len() as int);
            assert(io[head as int] == order@[head as int]);
        }
        let idx: usize = order[head];
        let start: usize = order.len();
        starts.push(start as u32);
        let ghost kids = t.nodes[idx as int].children;
        assert(t.nodes[idx as int] == nodes@[idx as int].model());
        let mut j: usize = 0;
        proof {
            assert(io =~= io + kids.take(0));
            lemma_way_step(t, io, head as int);
        }
        while j < nodes[idx].children.len()
            invariant
                t == tree_model(nodes@, names@),
                t.wf(),
                idx < nodes@.len(),
                head < io.len(),
                io[head as int] == idx,
                kids == t.nodes[idx as int].children,
                t.nodes[idx as int] == nodes@[idx as int].model(),
                j <= nodes@[idx as int].children@.len(),
                on_the_way(t, io, head as int),
                on_the_way(t, indices(order@), head + 1),
                indices(order@) == io + kids.take(j as int),
            decreases nodes@[idx as int].children@.len() - j,
        {
            let c: usize = nodes[idx].children[j];
            let ghost before = indices(order@);
            proof {
                lemma_child_is_node(nodes@, names@, idx as int, j as int);
                assert(kids[j as int] == c);
                assert(t.nodes[c as int] == nodes@[c as int].model());
            }
            order.push(c);
            proof {
                let after = indices(order@);
                assert(after =~= before.push(c as int));
                assert(after =~= io + kids.take(j + 1));
                assert forall|i: int| 0 <= i < before.len() implies #[trigger] before[i] != c by {
                    if before[i] == c {
                        if i < io.len() {
                            if i >= 1 {
                                assert(io[i] == c);
                                assert(parent_before(t, io, i, head as int));
                                let q = choose|q: int|
                                    0 <= q < head && q < i && #[trigger] io[q]
                                        == t.nodes[io[i]].parent;
                                assert(io[q] == idx);
                                assert(io[q] != io[head as int]);
                            }
                        } else {
                            assert(before[i] == kids[i - io.len()]);
                            assert(lower(t.name(t.nodes[idx as int].children[i - io.len()]))
                                != lower(t.name(t.nodes[idx as int].children[j as int])));
                        }
                    }
                }
                lemma_way_goes_on(t, before, c as int, head as int);
            }
            j = j + 1;
        }
        proof {
            let after = indices(order@);
            assert(kids.take(j as int) =~= kids);
            assert forall|i: int| 0 <= i < io.len() implies after[i] == io[i] by {
            }
            lemma_order_extends(t, io, after, head as int);
            assert forall|p: int| 0 <= p < head + 1 implies #[trigger] starts@[p] == child_start(
                t,
                after,
                p,
            ) by {
                lemma_order_extends(t, io, after, p);
            }
            assert(seq![0int] + (children_in_order(t, after, head as int) + kids) =~= after);
        }
        head = head + 1;
    }
    proof {
        let io = indices(order@);
        lemma_distinct_is_short(io, t.nodes.len() as int);
        assert forall|p: int| 0 <= p < order@.len() implies (#[trigger] order@[p])
            < nodes@.len() by {
            assert(io[p] == order@[p]);
            assert(0 <= io[p] < t.nodes.len());
        }
    }
    (order, starts)
}

/// The file-tree section: every directory's children sorted by name, nodes in breadth-first
/// order.
pub fn build_file_tree(
    nodes: &mut Vec<TreeNode>,
    names: &Vec<String>,
    name_offsets: &Vec<u32>,
) -> (r: Vec<u8>)
    requires
        tree_model(old(nodes)@, names@).wf(),
        old(nodes)@.len() <= u32::MAX,
        name_offsets@.len() == names@.len(),
        forall|i: int|
            0 <= i < names@.len() ==> name_offsets@[i] == name_offset(texts(names@), i),
    ensures
        is_sorted_tree(tree_model(old(nodes)@, names@), tree_model(final(nodes)@, names@)),
        tree_model(final(nodes)@, names@).wf(),
        exists|order: Seq<int>|
            #[trigger] is_breadth_first(tree_model(final(nodes)@, names@), order) && r@
                == tree_section(tree_model(final(nodes)@, names@), order, order.len() as int),
        r@.len() <= 16 * old(nodes)@.len(),
{
    sort_tree(nodes, names);
    let ghost t = tree_model(nodes@, names@);
    let (order, starts) = breadth_first(nodes, names);
    let ghost io = indices(order@);
    let mut out: Vec<u8> = Vec::new();
    let mut p: usize = 0;
    while p < order.len()
        invariant
            p <= order@.len(),
            t == tree_model(nodes@, names@),
            t.wf(),
            io == indices(order@),
            starts@.len() == order@.len(),
            name_offsets@.len() == names@.len(),
            forall|i: int|
                0 <= i < names@.len() ==> name_offsets@[i] == name_offset(texts(names@), i),
            forall|q: int| 0 <= q < order@.len() ==> (#[trigger] order@[q]) < nodes@.len(),
            forall|q: int|
                0 <= q < order@.len() ==> #[trigger] starts@[q] == child_start(t, io, q),
            out@ == tree_section(t, io, p as int),
            out@.len() == 16 * p,
        decreases order@.len() - p,
    {
        let idx: usize = order[p];
        let node = &nodes[idx];
        proof {
            assert(io[p as int] == idx);
            assert(t.nodes[idx as int] == nodes@[idx as int].model());
            if idx > 0 {
                assert(0 <= t.nodes[idx as int].name_index < t.names.len());
            }
        }
        let name_at: u32 = if idx == 0 {
            0x7FFF_FFFF
        } else {
            name_offsets[node.name_index] % 0x8000_0000
        };
        let ghost before = out@;
        if node.is_file {
            put_be(&mut out, 0x8000_0000 + name_at as u64, 4);
            put_be(&mut out, node.file_offset, 4);
            put_be(&mut out, node.file_size, 4);
            put_be(
                &mut out,
                node.file_offset / 0x1_0000_0000 % 0x1_0000 + node.file_size / 0x1_0000_0000
                    % 0x1_0000 * 0x1_0000,
                4,
            );
        } else {
            put_be(&mut out, name_at as u64, 4);
            put_be(&mut out, starts[p] as u64, 4);
            put_be(&mut out, node.children.len() as u64, 4);
            put_be(&mut out, 0, 4);
        }
        assert(out@ =~= before + tree_entry(t, io, p as int));
        p = p + 1;
    }
    assert(is_breadth_first(tree_model(nodes@, names@), io));
    out
}

} // verus!
