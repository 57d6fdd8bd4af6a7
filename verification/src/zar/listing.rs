//! What the file tree of a written archive lists.
use crate::bytes::{be_bytes, field, lemma_be_mod, lemma_pow256};
use crate::utils::paths::{components, is_component, joined, joined_splits};
use crate::utils::safe_path::{is_separator, safe_component};
use crate::utils::text::{
    in_dictionary_order, lower, text_less, texts_stand_in_dictionary_order,
};
use crate::zar::format::{win1252_byte, win1252_code, win1252_text};
use crate::zar::layout::{
    child_start, children_in_order, in_name_order, is_breadth_first, is_sorted_tree,
    lemma_distinct_is_short, lemma_name_table_grows, lemma_sorted_tree_wf, name_entry, name_offset,
    name_table, sort_key, stored_name, tree_entry, tree_section,
};
use crate::zar::read::{
    child_path, name_at, tree_entry_of, tree_files, tree_of_bytes, visit_children, walk_files,
    walk_start, TreeNodeRaw, Walk, ZarFile, ZarReadError,
};
use crate::zar::tree::{
    has_node, lemma_last_file, paths_tell_nodes_apart, same_but_case, stands_for,
    tree_holds_the_files, tree_of_files, TreeModel,
};
use vstd::prelude::*;

verus! {

broadcast use crate::bytes::group_fields;

/// A name that the name table holds as it is: safe, of at most 32767 characters, each of them in
/// Windows-1252.
pub open spec fn storable(name: Seq<char>) -> bool {
    &&& safe_component(name)
    &&& name.len() <= 0x7FFF
    &&& forall|i: int|
        0 <= i < name.len() ==> win1252_code(win1252_byte(#[trigger] name[i])) == name[i] as u32
}

proof fn lemma_char_code(c: char)
    ensures
        c as u32 as char == c,
{
}

proof fn lemma_stored_name(name: Seq<char>)
    requires
        storable(name),
    ensures
        win1252_text(stored_name(name)) == name,
        stored_name(name).len() == name.len(),
{
    assert forall|i: int| 0 <= i < name.len() implies win1252_text(stored_name(name))[i]
        == name[i] by {
        assert(stored_name(name)[i] == win1252_byte(name[i]));
        lemma_char_code(name[i]);
    }
    assert(win1252_text(stored_name(name)) =~= name);
}

/// A name reads back from where its entry starts.
proof fn lemma_name_at(names: Seq<Seq<char>>, i: int)
    requires
        0 <= i < names.len(),
        storable(names[i]),
    ensures
        name_at(name_table(names, names.len() as int), name_offset(names, i)) == Ok::<
            Seq<char>,
            ZarReadError,
        >(names[i]),
{
    let table = name_table(names, names.len() as int);
    let at = name_offset(names, i);
    let b = stored_name(names[i]);
    let entry = name_entry(names[i]);
    let upto = name_table(names, i + 1);
    lemma_stored_name(names[i]);
    lemma_name_table_grows(names, i + 1, names.len() as int);
    assert forall|j: int| 0 <= j < entry.len() implies table[at + j] == entry[j] by {
        assert(table.take(upto.len() as int)[at + j] == upto[at + j]);
    }
    let n = b.len() as int;
    let head = entry.len() - n;
    assert(table[at] == entry[0]);
    assert(table.subrange(at + head, at + head + n) =~= b) by {
        assert forall|j: int| 0 <= j < n implies table[at + head + j] == b[j] by {
            assert(table[at + (head + j)] == entry[head + j]);
        }
    }
    if n >= 0x80 {
        assert(table[at + 1] == entry[1]);
        assert((n % 0x80 + 0x80) as u8 % 0x80 + (n / 0x80) as u8 * 0x80 == n);
    }
}

/// The entries of a file tree stand 16 bytes apart.
pub proof fn lemma_tree_section(t: TreeModel, order: Seq<int>, k: int)
    requires
        0 <= k,
    ensures
        tree_section(t, order, k).len() == 16 * k,
        forall|p: int|
            0 <= p < k ==> field(tree_section(t, order, k), p * 16, 16) == #[trigger] tree_entry(
                t,
                order,
                p,
            ),
    decreases k,
{
    if k > 0 {
        lemma_tree_section(t, order, k - 1);
        let before = tree_section(t, order, k - 1);
        let now = tree_section(t, order, k);
        assert(tree_entry(t, order, k - 1).len() == 16);
        assert forall|p: int| 0 <= p < k implies field(now, p * 16, 16) == #[trigger] tree_entry(
            t,
            order,
            p,
        ) by {
            if p < k - 1 {
                assert(field(now, p * 16, 16) =~= field(before, p * 16, 16));
            } else {
                assert(field(now, p * 16, 16) =~= tree_entry(t, order, p));
            }
        }
    }
}

/// The entry that stands for the node at position `p`.
pub open spec fn raw_entry(t: TreeModel, order: Seq<int>, p: int) -> TreeNodeRaw {
    let n = t.nodes[order[p]];
    let at = if order[p] == 0 {
        0x7FFF_FFFF
    } else {
        name_offset(t.names, n.name_index)
    };
    if n.is_file {
        TreeNodeRaw::File { name_offset: at as u32, offset: n.offset as u64, size: n.size as u64 }
    } else {
        TreeNodeRaw::Dir {
            name_offset: at as u32,
            node_start_index: child_start(t, order, p) as u32,
            count: n.children.len() as u32,
        }
    }
}

/// The numbers of a tree fit the fields of its entries.
pub open spec fn fits_fields(t: TreeModel) -> bool {
    &&& t.nodes.len() <= u32::MAX
    &&& name_table(t.names, t.names.len() as int).len() <= 0x7FFF_FFFF
    &&& forall|i: int|
        0 <= i < t.nodes.len() && (#[trigger] t.nodes[i]).is_file ==> 0 <= t.nodes[i].offset
            < 0x1_0000_0000_0000 && 0 <= t.nodes[i].size < 0x1_0000_0000_0000
}

proof fn lemma_high_half(offset: int, size: int)
    requires
        0 <= offset < 0x1_0000_0000_0000,
        0 <= size < 0x1_0000_0000_0000,
    ensures
        ({
            let high = offset / 0x1_0000_0000 % 0x1_0000 + size / 0x1_0000_0000 % 0x1_0000
                * 0x1_0000;
            &&& 0 <= high < 0x1_0000_0000
            &&& offset % 0x1_0000_0000 + high % 0x1_0000 * 0x1_0000_0000 == offset
            &&& size % 0x1_0000_0000 + high / 0x1_0000 * 0x1_0000_0000 == size
        }),
{
    let a = offset / 0x1_0000_0000;
    let b = size / 0x1_0000_0000;
    assert(0 <= a < 0x1_0000);
    assert(0 <= b < 0x1_0000);
    let high = a + b * 0x1_0000;
    assert(high % 0x1_0000 == a);
    assert(high / 0x1_0000 == b);
}

/// The nodes at all positions are there.
proof fn lemma_order_len(t: TreeModel, order: Seq<int>, p: int, k: int)
    requires
        0 <= p <= k,
    ensures
        children_in_order(t, order, p).len() <= children_in_order(t, order, k).len(),
        children_in_order(t, order, k).take(children_in_order(t, order, p).len() as int)
            == children_in_order(t, order, p),
    decreases k,
{
    let a = children_in_order(t, order, p);
    if p < k {
        lemma_order_len(t, order, p, k - 1);
        assert(children_in_order(t, order, k).take(a.len() as int) =~= children_in_order(
            t,
            order,
            k - 1,
        ).take(a.len() as int));
    } else {
        assert(a.take(a.len() as int) =~= a);
    }
}

/// The children of the node at position `q` stand together from where they start.
proof fn lemma_children_stand(t: TreeModel, order: Seq<int>, q: int, j: int)
    requires
        is_breadth_first(t, order),
        0 <= q < order.len(),
        0 <= j < t.nodes[order[q]].children.len(),
    ensures
        child_start(t, order, q) + j < order.len(),
        order[child_start(t, order, q) + j] == t.nodes[order[q]].children[j],
{
    let n = order.len() as int;
    let all = children_in_order(t, order, n);
    let upto = children_in_order(t, order, q + 1);
    let i = children_in_order(t, order, q).len() + j;
    lemma_order_len(t, order, q + 1, n);
    assert(all.take(upto.len() as int)[i] == upto[i]);
    assert(order[1 + i] == all[i]);
}

spec fn is_child_at(t: TreeModel, order: Seq<int>, i: int, q: int, j: int) -> bool {
    &&& 0 <= j < t.nodes[order[q]].children.len()
    &&& child_start(t, order, q) + j == i
}

/// Every position but the first is that of a child of a node at some position.
proof fn lemma_owner(t: TreeModel, order: Seq<int>, i: int, k: int) -> (r: (int, int))
    requires
        0 <= k,
        1 <= i < 1 + children_in_order(t, order, k).len(),
    ensures
        0 <= r.0 < k,
        is_child_at(t, order, i, r.0, r.1),
    decreases k,
{
    if i < 1 + children_in_order(t, order, k - 1).len() {
        lemma_owner(t, order, i, k - 1)
    } else {
        (k - 1, i - child_start(t, order, k - 1))
    }
}

/// The least node at a position from `p` on.
proof fn lemma_least(order: Seq<int>, p: int) -> (r: int)
    requires
        0 <= p < order.len(),
    ensures
        p <= r < order.len(),
        forall|i: int| p <= i < order.len() ==> order[r] <= #[trigger] order[i],
    decreases order.len() - p,
{
    if p + 1 == order.len() {
        p
    } else {
        let r = lemma_least(order, p + 1);
        if order[p] <= order[r] {
            p
        } else {
            r
        }
    }
}

/// A node's children come after it.
proof fn lemma_children_come_later(t: TreeModel, order: Seq<int>, p: int)
    requires
        t.wf(),
        is_breadth_first(t, order),
        0 <= p < order.len(),
    ensures
        p < child_start(t, order, p),
        child_start(t, order, p) <= order.len(),
{
    let n = order.len() as int;
    lemma_order_len(t, order, p, n);
    if child_start(t, order, p) <= p {
        let i = lemma_least(order, p);
        assert(i >= 1);
        let (q, j) = lemma_owner(t, order, i, n);
        lemma_children_stand(t, order, q, j);
        assert(t.nodes[order[i]].parent == order[q]) by {
            assert(t.nodes[order[q]].children[j] == order[i]);
        }
        assert(1 <= order[i] < t.nodes.len());
        assert(order[q] < order[i]);
        if q < p {
            lemma_order_len(t, order, q + 1, p);
            assert(child_start(t, order, q + 1) == child_start(t, order, q)
                + t.nodes[order[q]].children.len());
            assert(i < child_start(t, order, p));
        }
        assert(q >= p);
        assert(order[i] <= order[q]);
    }
}

/// No node stands at two positions.
proof fn lemma_no_node_twice(t: TreeModel, order: Seq<int>, a: int, b: int)
    requires
        t.wf(),
        is_breadth_first(t, order),
        0 <= a < b < order.len(),
    ensures
        order[a] != order[b],
    decreases b,
{
    let n = order.len() as int;
    let (q, j) = lemma_owner(t, order, b, n);
    lemma_children_stand(t, order, q, j);
    assert(t.nodes[order[q]].children[j] == order[b]);
    if a == 0 {
        assert(order[a] == 0);
    } else if order[a] == order[b] {
        let (r, k) = lemma_owner(t, order, a, n);
        lemma_children_stand(t, order, r, k);
        assert(t.nodes[order[r]].children[k] == order[a]);
        assert(order[q] == t.nodes[order[b]].parent);
        assert(order[r] == t.nodes[order[a]].parent);
        lemma_children_come_later(t, order, q);
        lemma_children_come_later(t, order, r);
        if q < r {
            lemma_no_node_twice(t, order, q, r);
        } else if r < q {
            lemma_no_node_twice(t, order, r, q);
        } else {
            assert(k < j);
            assert(lower(t.name(t.nodes[order[q]].children[k])) != lower(
                t.name(t.nodes[order[q]].children[j]),
            ));
        }
    }
}

/// Every node stands at some position.
proof fn lemma_every_node_stands(t: TreeModel, order: Seq<int>, i: int) -> (p: int)
    requires
        t.wf(),
        is_breadth_first(t, order),
        0 <= i < t.nodes.len(),
    ensures
        0 <= p < order.len(),
        order[p] == i,
    decreases i,
{
    if i == 0 {
        assert(order[0] == 0);
        0
    } else {
        let parent = t.nodes[i].parent;
        assert(0 <= parent < i && t.nodes[parent].children.contains(i));
        let q = lemma_every_node_stands(t, order, parent);
        let j = choose|j: int|
            0 <= j < t.nodes[parent].children.len() && t.nodes[parent].children[j] == i;
        lemma_children_stand(t, order, q, j);
        child_start(t, order, q) + j
    }
}

/// There are no more positions than nodes.
proof fn lemma_order_is_short(t: TreeModel, order: Seq<int>)
    requires
        t.wf(),
        is_breadth_first(t, order),
    ensures
        1 <= order.len() <= t.nodes.len(),
        child_start(t, order, order.len() as int) == order.len(),
{
    assert forall|i: int, j: int| 0 <= i < j < order.len() implies #[trigger] order[i]
        != #[trigger] order[j] by {
        lemma_no_node_twice(t, order, i, j);
    }
    lemma_distinct_is_short(order, t.nodes.len() as int);
}

proof fn lemma_file_bytes(at: int, offset: int, size: int, b: Seq<u8>)
    requires
        0 <= at <= 0x7FFF_FFFF,
        0 <= offset < 0x1_0000_0000_0000,
        0 <= size < 0x1_0000_0000_0000,
        b == be_bytes((0x8000_0000 + at) as nat, 4) + be_bytes(offset as nat, 4) + be_bytes(
            size as nat,
            4,
        ) + be_bytes(
            (offset / 0x1_0000_0000 % 0x1_0000 + size / 0x1_0000_0000 % 0x1_0000
                * 0x1_0000) as nat,
            4,
        ),
    ensures
        tree_entry_of(b) == (TreeNodeRaw::File {
            name_offset: at as u32,
            offset: offset as u64,
            size: size as u64,
        }),
{
    lemma_pow256();
    lemma_high_half(offset, size);
    let high = offset / 0x1_0000_0000 % 0x1_0000 + size / 0x1_0000_0000 % 0x1_0000 * 0x1_0000;
    assert(field(b, 0, 4) =~= be_bytes((0x8000_0000 + at) as nat, 4));
    assert(field(b, 4, 4) =~= be_bytes(offset as nat, 4));
    assert(field(b, 8, 4) =~= be_bytes(size as nat, 4));
    assert(field(b, 12, 4) =~= be_bytes(high as nat, 4));
    lemma_be_mod((0x8000_0000 + at) as nat, 4);
    lemma_be_mod(offset as nat, 4);
    lemma_be_mod(size as nat, 4);
    lemma_be_mod(high as nat, 4);
}

proof fn lemma_dir_bytes(at: int, start: int, count: int, b: Seq<u8>)
    requires
        0 <= at <= 0x7FFF_FFFF,
        0 <= start <= u32::MAX,
        0 <= count <= u32::MAX,
        b == be_bytes(at as nat, 4) + be_bytes(start as nat, 4) + be_bytes(count as nat, 4)
            + be_bytes(0, 4),
    ensures
        tree_entry_of(b) == (TreeNodeRaw::Dir {
            name_offset: at as u32,
            node_start_index: start as u32,
            count: count as u32,
        }),
{
    lemma_pow256();
    assert(field(b, 0, 4) =~= be_bytes(at as nat, 4));
    assert(field(b, 4, 4) =~= be_bytes(start as nat, 4));
    assert(field(b, 8, 4) =~= be_bytes(count as nat, 4));
    lemma_be_mod(at as nat, 4);
    lemma_be_mod(start as nat, 4);
    lemma_be_mod(count as nat, 4);
}

/// The entry of the node at position `p` reads back.
pub proof fn lemma_entry(t: TreeModel, order: Seq<int>, p: int)
    requires
        t.wf(),
        fits_fields(t),
        is_breadth_first(t, order),
        0 <= p < order.len(),
    ensures
        tree_of_bytes(tree_section(t, order, order.len() as int)).len() == order.len(),
        tree_of_bytes(tree_section(t, order, order.len() as int))[p] == raw_entry(t, order, p),
{
    let k = order.len() as int;
    let section = tree_section(t, order, k);
    let b = tree_entry(t, order, p);
    let n = t.nodes[order[p]];
    let at = if order[p] == 0 {
        0x7FFF_FFFF
    } else {
        name_offset(t.names, n.name_index)
    };
    lemma_tree_section(t, order, k);
    lemma_order_is_short(t, order);
    lemma_order_len(t, order, p, k);
    lemma_order_len(t, order, p + 1, k);
    if order[p] != 0 {
        lemma_name_table_grows(t.names, n.name_index, t.names.len() as int);
    }
    assert(0 <= at <= 0x7FFF_FFFF);
    assert(at % 0x8000_0000 == at);
    assert(field(section, p * 16, 16) == b);
    if n.is_file {
        lemma_file_bytes(at, n.offset, n.size, b);
    } else {
        lemma_dir_bytes(at, child_start(t, order, p), n.children.len() as int, b);
    }
}

/// The file that the node at position `p` stands for.
pub open spec fn listed(t: TreeModel, order: Seq<int>, p: int) -> ZarFile {
    ZarFile {
        path: joined(t.path(order[p])),
        offset: t.nodes[order[p]].offset as u64,
        size: t.nodes[order[p]].size as u64,
    }
}

/// The files at the first `n` positions.
pub open spec fn listed_before(t: TreeModel, order: Seq<int>, n: int) -> Seq<ZarFile>
    decreases n,
{
    if n <= 0 {
        Seq::empty()
    } else if t.nodes[order[n - 1]].is_file {
        listed_before(t, order, n - 1).push(listed(t, order, n - 1))
    } else {
        listed_before(t, order, n - 1)
    }
}

/// The directories at the positions from `p` to before `n`, each with its path.
spec fn dirs_between(t: TreeModel, order: Seq<int>, p: int, n: int) -> Seq<(int, Seq<char>)>
    decreases n,
{
    if n <= p || n <= 0 {
        Seq::empty()
    } else if t.nodes[order[n - 1]].is_file {
        dirs_between(t, order, p, n - 1)
    } else {
        dirs_between(t, order, p, n - 1).push((n - 1, joined(t.path(order[n - 1]))))
    }
}

spec fn dirs_before(t: TreeModel, order: Seq<int>, n: int) -> Set<int> {
    Set::new(|i: int| 0 <= i < n && !t.nodes[order[i]].is_file)
}

/// The walk that has met the first `n` positions and gone into the directories before `p`.
spec fn walk_at(t: TreeModel, order: Seq<int>, p: int, n: int) -> Walk {
    Walk {
        files: listed_before(t, order, n),
        queue: dirs_between(t, order, p, n),
        visited: dirs_before(t, order, n),
    }
}

/// Every name of a tree is one that the name table holds as it is.
pub open spec fn names_storable(t: TreeModel) -> bool {
    forall|i: int| 0 <= i < t.names.len() ==> storable(#[trigger] t.names[i])
}

proof fn lemma_child_path(t: TreeModel, i: int)
    requires
        t.wf(),
        names_storable(t),
        1 <= i < t.nodes.len(),
    ensures
        child_path(joined(t.path(t.nodes[i].parent)), t.name(i)) == joined(t.path(i)),
        joined(t.path(i)).len() > 0,
    decreases i,
{
    let q = t.nodes[i].parent;
    let parts = t.path(q);
    assert(t.path(i) == parts.push(t.name(i)));
    assert(t.path(i).drop_last() =~= parts);
    assert(storable(t.names[t.nodes[i].name_index]));
    if q >= 1 {
        lemma_child_path(t, q);
        assert(parts.len() >= 1);
    }
}

#[verifier::rlimit(40)]
proof fn lemma_visit(
    t: TreeModel,
    order: Seq<int>,
    q: int,
    from: int,
    i: int,
    names: Seq<u8>,
    entries: Seq<TreeNodeRaw>,
)
    requires
        t.wf(),
        fits_fields(t),
        names_storable(t),
        is_breadth_first(t, order),
        0 <= q < order.len(),
        names == name_table(t.names, t.names.len() as int),
        entries == tree_of_bytes(tree_section(t, order, order.len() as int)),
        child_start(t, order, q) <= i <= child_start(t, order, q + 1),
        0 <= from <= i,
    ensures
        visit_children(
            names,
            entries,
            i,
            child_start(t, order, q + 1),
            joined(t.path(order[q])),
            walk_at(t, order, from, i),
        ) == Ok::<Walk, ZarReadError>(walk_at(t, order, from, child_start(t, order, q + 1))),
    decreases child_start(t, order, q + 1) - i,
{
    let end = child_start(t, order, q + 1);
    if i < end {
        let j = i - child_start(t, order, q);
        lemma_children_stand(t, order, q, j);
        lemma_entry(t, order, i);
        let c = order[i];
        assert(t.nodes[order[q]].children[j] == c);
        assert(1 <= c < t.nodes.len() && t.nodes[c].parent == order[q]);
        assert(0 <= t.nodes[c].name_index < t.names.len());
        lemma_name_at(t.names, t.nodes[c].name_index);
        lemma_name_table_grows(t.names, t.nodes[c].name_index, t.names.len() as int);
        lemma_child_path(t, c);
        lemma_visit(t, order, q, from, i + 1, names, entries);
        let w = walk_at(t, order, from, i);
        let next = walk_at(t, order, from, i + 1);
        if t.nodes[c].is_file {
            assert(next.visited =~= w.visited);
            assert(next.files =~= w.files.push(listed(t, order, i)));
        } else {
            assert(next.visited =~= w.visited.insert(i));
            assert(next.queue =~= w.queue.push((i, joined(t.path(c)))));
        }
    }
}

proof fn lemma_dirs_from(t: TreeModel, order: Seq<int>, p: int, n: int)
    requires
        0 <= p < n,
    ensures
        t.nodes[order[p]].is_file ==> dirs_between(t, order, p, n) == dirs_between(
            t,
            order,
            p + 1,
            n,
        ),
        !t.nodes[order[p]].is_file ==> dirs_between(t, order, p, n) == seq![
            (p, joined(t.path(order[p]))),
        ] + dirs_between(t, order, p + 1, n),
    decreases n,
{
    if p + 1 < n {
        lemma_dirs_from(t, order, p, n - 1);
        if !t.nodes[order[p]].is_file {
            assert(dirs_between(t, order, p, n) =~= seq![(p, joined(t.path(order[p])))]
                + dirs_between(t, order, p + 1, n));
        }
    } else {
        assert(dirs_between(t, order, p, p) =~= Seq::empty());
        assert(dirs_between(t, order, p + 1, n) =~= Seq::empty());
        if !t.nodes[order[p]].is_file {
            assert(dirs_between(t, order, p, n) =~= seq![(p, joined(t.path(order[p])))]
                + dirs_between(t, order, p + 1, n));
        }
    }
}

proof fn lemma_walk(
    t: TreeModel,
    order: Seq<int>,
    p: int,
    steps: nat,
    names: Seq<u8>,
    entries: Seq<TreeNodeRaw>,
)
    requires
        t.wf(),
        fits_fields(t),
        names_storable(t),
        is_breadth_first(t, order),
        0 <= p <= order.len(),
        steps >= order.len() - p,
        names == name_table(t.names, t.names.len() as int),
        entries == tree_of_bytes(tree_section(t, order, order.len() as int)),
    ensures
        walk_files(names, entries, walk_at(t, order, p, child_start(t, order, p)), steps) == Ok::<
            Seq<ZarFile>,
            ZarReadError,
        >(listed_before(t, order, order.len() as int)),
    decreases order.len() - p,
{
    lemma_order_is_short(t, order);
    let w = walk_at(t, order, p, child_start(t, order, p));
    if p == order.len() {
        assert(w.queue =~= Seq::empty());
    } else {
        let n = child_start(t, order, p);
        lemma_children_come_later(t, order, p);
        lemma_dirs_from(t, order, p, n);
        lemma_entry(t, order, p);
        lemma_order_len(t, order, p + 1, order.len() as int);
        if t.nodes[order[p]].is_file {
            if t.nodes[order[p]].children.len() > 0 {
                let c = t.nodes[order[p]].children[0];
                assert(!t.nodes[order[p]].is_file);
            }
            assert(child_start(t, order, p + 1) == n);
            lemma_walk(t, order, p + 1, steps, names, entries);
        } else {
            assert(w.queue.drop_first() =~= dirs_between(t, order, p + 1, n));
            lemma_visit(t, order, p, p + 1, n, names, entries);
            lemma_walk(t, order, p + 1, (steps - 1) as nat, names, entries);
        }
    }
}

/// The file tree of an archive lists the files of the tree it was written from, in breadth-first
/// order, each with its path, its place and its size.
pub proof fn tree_reads_back(t: TreeModel, order: Seq<int>)
    requires
        t.wf(),
        fits_fields(t),
        names_storable(t),
        is_breadth_first(t, order),
    ensures
        tree_files(
            name_table(t.names, t.names.len() as int),
            tree_of_bytes(tree_section(t, order, order.len() as int)),
        ) == Ok::<Seq<ZarFile>, ZarReadError>(listed_before(t, order, order.len() as int)),
{
    let names = name_table(t.names, t.names.len() as int);
    let entries = tree_of_bytes(tree_section(t, order, order.len() as int));
    lemma_order_is_short(t, order);
    assert(order[0] == 0);
    lemma_entry(t, order, 0);
    assert(child_start(t, order, 0) == 1);
    let w = walk_at(t, order, 0, 1);
    let s = walk_start();
    assert(t.path(0) =~= Seq::empty());
    assert(dirs_between(t, order, 0, 0) =~= Seq::empty());
    assert(w.queue =~= s.queue);
    assert(listed_before(t, order, 0) =~= Seq::empty());
    assert(w.files =~= s.files);
    assert(w.visited =~= s.visited);
    lemma_walk(t, order, 0, order.len(), names, entries);
}

/// There is a position for every node.
pub proof fn lemma_order_is_full(t: TreeModel, order: Seq<int>)
    requires
        t.wf(),
        is_breadth_first(t, order),
    ensures
        order.len() == t.nodes.len(),
{
    lemma_order_is_short(t, order);
    let all = vstd::set_lib::set_int_range(0, t.nodes.len() as int);
    vstd::set_lib::lemma_int_range(0, t.nodes.len() as int);
    assert forall|i: int| #[trigger] all.contains(i) implies order.to_set().contains(i) by {
        let p = lemma_every_node_stands(t, order, i);
        assert(order.contains(order[p]));
    }
    assert(all.subset_of(order.to_set()));
    vstd::seq_lib::seq_to_set_is_finite(order);
    vstd::set_lib::lemma_len_subset(all, order.to_set());
    order.lemma_cardinality_of_set();
}

/// The file of node `i` is listed.
pub proof fn lemma_is_listed(t: TreeModel, order: Seq<int>, i: int) -> (k: int)
    requires
        t.wf(),
        is_breadth_first(t, order),
        0 <= i < t.nodes.len(),
        t.nodes[i].is_file,
    ensures
        ({
            let all = listed_before(t, order, order.len() as int);
            &&& 0 <= k < all.len()
            &&& all[k] == (ZarFile {
                path: joined(t.path(i)),
                offset: t.nodes[i].offset as u64,
                size: t.nodes[i].size as u64,
            })
        }),
{
    let p = lemma_every_node_stands(t, order, i);
    lemma_listed_at(t, order, p, order.len() as int)
}

proof fn lemma_listed_at(t: TreeModel, order: Seq<int>, p: int, n: int) -> (k: int)
    requires
        0 <= p < n,
        t.nodes[order[p]].is_file,
    ensures
        0 <= k < listed_before(t, order, n).len(),
        listed_before(t, order, n)[k] == listed(t, order, p),
    decreases n,
{
    if p == n - 1 {
        listed_before(t, order, n - 1).len() as int
    } else {
        lemma_listed_at(t, order, p, n - 1)
    }
}

/// The position of the file that is listed at `k`.
proof fn lemma_listed_where(t: TreeModel, order: Seq<int>, k: int, n: int) -> (p: int)
    requires
        0 <= k < listed_before(t, order, n).len(),
    ensures
        0 <= p < n,
        t.nodes[order[p]].is_file,
        listed_before(t, order, n)[k] == listed(t, order, p),
        k >= listed_before(t, order, p).len(),
        k < listed_before(t, order, p + 1).len(),
    decreases n,
{
    if k < listed_before(t, order, n - 1).len() {
        lemma_listed_where(t, order, k, n - 1)
    } else {
        n - 1
    }
}

proof fn lemma_listed_grows(t: TreeModel, order: Seq<int>, a: int, b: int)
    requires
        0 <= a <= b,
    ensures
        listed_before(t, order, a).len() <= listed_before(t, order, b).len(),
    decreases b,
{
    if a < b {
        lemma_listed_grows(t, order, a, b - 1);
    }
}

/// What is listed at `k` is a file of the tree.
pub proof fn lemma_listed_is_a_file(t: TreeModel, order: Seq<int>, k: int) -> (i: int)
    requires
        t.wf(),
        is_breadth_first(t, order),
        0 <= k < listed_before(t, order, order.len() as int).len(),
    ensures
        0 <= i < t.nodes.len(),
        t.nodes[i].is_file,
        listed_before(t, order, order.len() as int)[k] == (ZarFile {
            path: joined(t.path(i)),
            offset: t.nodes[i].offset as u64,
            size: t.nodes[i].size as u64,
        }),
{
    let p = lemma_listed_where(t, order, k, order.len() as int);
    assert(0 <= order[p] < t.nodes.len());
    order[p]
}

/// Files that a tree was made of have paths that differ in more than case.
pub proof fn files_of_a_tree_differ(files: Seq<(Seq<char>, int)>, k: int, f: int, g: int)
    requires
        0 <= f < g < k <= files.len(),
        tree_of_files(files, k) is Ok,
    ensures
        !same_but_case(components(files[f].0), components(files[g].0)),
    decreases k,
{
    if g < k - 1 {
        files_of_a_tree_differ(files, k - 1, f, g);
    } else if same_but_case(components(files[f].0), components(files[g].0)) {
        let t = tree_of_files(files, k - 1)->Ok_0;
        let u = tree_of_files(files, k)->Ok_0;
        tree_holds_the_files(files, k - 1);
        assert(has_node(t, files, f));
        let i = choose|i: int| #[trigger] stands_for(t, i, files, f);
        let leaf = lemma_last_file(files, k, i);
        let a = u.path(i);
        let b = u.path(leaf);
        assert forall|x: int| 0 <= x < a.len() implies lower(#[trigger] a[x]) == lower(b[x]) by {
            assert(lower(a[x]) == lower(components(files[f].0)[x]));
            assert(lower(b[x]) == lower(components(files[g].0)[x]));
            assert(lower(components(files[f].0)[x]) == lower(components(files[g].0)[x]));
        }
        paths_tell_nodes_apart(u, i, leaf);
    }
}

/// The components of a node's path are those of the path it is listed under.
pub proof fn lemma_path_components(t: TreeModel, i: int)
    requires
        t.wf(),
        names_storable(t),
        0 <= i < t.nodes.len(),
    ensures
        components(joined(t.path(i))) == t.path(i),
{
    assert forall|k: int| 0 <= k < t.path(i).len() implies is_component(#[trigger] t.path(i)[k]) by {
        lemma_path_parts(t, i, k);
    }
    joined_splits(t.path(i));
}

proof fn lemma_path_parts(t: TreeModel, i: int, k: int)
    requires
        t.wf(),
        names_storable(t),
        0 <= i < t.nodes.len(),
        0 <= k < t.path(i).len(),
    ensures
        is_component(t.path(i)[k]),
    decreases i,
{
    let q = t.nodes[i].parent;
    if k < t.path(i).len() - 1 {
        lemma_path_parts(t, q, k);
    } else {
        let name = t.names[t.nodes[i].name_index];
        assert(storable(name));
        assert(!name.contains('/')) by {
            if name.contains('/') {
                let x = choose|x: int| 0 <= x < name.len() && name[x] == '/';
                assert(is_separator(name[x]));
            }
        }
    }
}

/// No path is listed twice.
pub proof fn no_path_is_listed_twice(t: TreeModel, order: Seq<int>, a: int, b: int)
    requires
        t.wf(),
        names_storable(t),
        is_breadth_first(t, order),
        0 <= a < b < listed_before(t, order, order.len() as int).len(),
    ensures
        listed_before(t, order, order.len() as int)[a].path != listed_before(
            t,
            order,
            order.len() as int,
        )[b].path,
{
    let n = order.len() as int;
    let p = lemma_listed_where(t, order, a, n);
    let q = lemma_listed_where(t, order, b, n);
    if q < p {
        lemma_listed_grows(t, order, q + 1, p);
    } else if q == p {
        assert(listed_before(t, order, p + 1).len() == listed_before(t, order, p).len() + 1);
    } else {
        lemma_no_node_twice(t, order, p, q);
        lemma_path_components(t, order[p]);
        lemma_path_components(t, order[q]);
        if t.path(order[p]) == t.path(order[q]) {
            assert(same_but_case(t.path(order[p]), t.path(order[q])));
            paths_tell_nodes_apart(t, order[p], order[q]);
        }
    }
}

/// The children of the directory at position `p` stand together, in the order of their names
/// without case.
pub open spec fn children_stand_sorted(u: TreeModel, order: Seq<int>, p: int) -> bool {
    let v = u.nodes[order[p]].children;
    let start = child_start(u, order, p);
    &&& start + v.len() <= order.len()
    &&& order.subrange(start, start + v.len()) == v
    &&& forall|j: int, k: int|
        0 <= j < k < v.len() ==> text_less(
            lower(u.name(#[trigger] v[j])),
            lower(u.name(#[trigger] v[k])),
        )
}

proof fn lemma_children_sorted(t: TreeModel, u: TreeModel, order: Seq<int>, p: int)
    requires
        u.wf(),
        is_sorted_tree(t, u),
        is_breadth_first(u, order),
        0 <= p < order.len(),
    ensures
        children_stand_sorted(u, order, p),
{
    let v = u.nodes[order[p]].children;
    let start = child_start(u, order, p);
    lemma_children_come_later(u, order, p);
    assert forall|j: int| 0 <= j < v.len() implies start + j < order.len() && order[start + j]
        == #[trigger] v[j] by {
        lemma_children_stand(u, order, p, j);
    }
    if v.len() > 0 {
        assert(order[start + v.len() - 1] == v[v.len() - 1]);
    }
    assert(order.subrange(start, start + v.len()) =~= v);
    assert forall|j: int, k: int| 0 <= j < k < v.len() implies text_less(
        lower(u.name(#[trigger] v[j])),
        lower(u.name(#[trigger] v[k])),
    ) by {
        assert(in_name_order(t, v));
        assert(text_less(sort_key(t, v[j]), sort_key(t, v[k])));
        assert(1 <= u.nodes[order[p]].children[j] < u.nodes.len());
        assert(1 <= u.nodes[order[p]].children[k] < u.nodes.len());
        assert(u.nodes[v[j]].name_index == t.nodes[v[j]].name_index);
        assert(u.nodes[v[k]].name_index == t.nodes[v[k]].name_index);
    }
}

/// The file tree that is built of a tree `t` and its sorted form `u` has 16 bytes for every node.
/// It starts with the root, which has no name, and the entries of a directory's children stand
/// together, in the order of their names without case.
pub proof fn built_tree_is_laid_out(t: TreeModel, u: TreeModel, order: Seq<int>)
    requires
        t.wf(),
        is_sorted_tree(t, u),
        is_breadth_first(u, order),
        fits_fields(u),
    ensures
        ({
            let bytes = tree_section(u, order, order.len() as int);
            let entries = tree_of_bytes(bytes);
            &&& bytes.len() == 16 * t.nodes.len()
            &&& entries.len() == t.nodes.len()
            &&& entries[0] is Dir && entries[0]->Dir_name_offset == 0x7FFF_FFFF
            &&& forall|p: int|
                0 <= p < entries.len() ==> #[trigger] entries[p] == raw_entry(u, order, p)
        }),
        forall|p: int|
            0 <= p < order.len() ==> #[trigger] children_stand_sorted(u, order, p),
{
    lemma_sorted_tree_wf(t, u);
    lemma_order_is_full(u, order);
    lemma_tree_section(u, order, order.len() as int);
    assert(order[0] == 0);
    let entries = tree_of_bytes(tree_section(u, order, order.len() as int));
    lemma_entry(u, order, 0);
    assert forall|p: int| 0 <= p < entries.len() implies #[trigger] entries[p] == raw_entry(
        u,
        order,
        p,
    ) by {
        lemma_entry(u, order, p);
    }
    assert forall|p: int| 0 <= p < order.len() implies #[trigger] children_stand_sorted(
        u,
        order,
        p,
    ) by {
        lemma_children_sorted(t, u, order, p);
    }
}

/// Where the name of an entry stands in the name table.
pub open spec fn entry_name_at(e: TreeNodeRaw) -> int {
    match e {
        TreeNodeRaw::File { name_offset, .. } => name_offset as int,
        TreeNodeRaw::Dir { name_offset, .. } => name_offset as int,
    }
}

/// The entries of a directory's children stand in one run, and any two of them in dictionary order
/// of their names without case, as the name table spells them.
pub proof fn siblings_stand_in_dictionary_order(
    t: TreeModel,
    u: TreeModel,
    order: Seq<int>,
    p: int,
    i: int,
    j: int,
)
    requires
        t.wf(),
        is_sorted_tree(t, u),
        is_breadth_first(u, order),
        fits_fields(u),
        names_storable(u),
        0 <= p < tree_of_bytes(tree_section(u, order, order.len() as int)).len(),
        tree_of_bytes(tree_section(u, order, order.len() as int))[p] matches TreeNodeRaw::Dir {
            node_start_index,
            count,
            ..
        } && node_start_index <= i < j < node_start_index + count,
    ensures
        ({
            let names = name_table(u.names, u.names.len() as int);
            let entries = tree_of_bytes(tree_section(u, order, order.len() as int));
            &&& j < entries.len()
            &&& name_at(names, entry_name_at(entries[i])) matches Ok(a) && name_at(
                names,
                entry_name_at(entries[j]),
            ) matches Ok(b) && in_dictionary_order(lower(a), lower(b))
        }),
{
    let entries = tree_of_bytes(tree_section(u, order, order.len() as int));
    built_tree_is_laid_out(t, u, order);
    lemma_sorted_tree_wf(t, u);
    lemma_order_is_full(u, order);
    assert(entries[p] == raw_entry(u, order, p));
    assert(children_stand_sorted(u, order, p));
    let v = u.nodes[order[p]].children;
    let start = child_start(u, order, p);
    lemma_children_come_later(u, order, p);
    assert(entries[p]->Dir_node_start_index == start);
    assert(entries[p]->Dir_count == v.len());
    let x = i - start;
    let y = j - start;
    assert(order.subrange(start, start + v.len())[x] == order[i]);
    assert(order.subrange(start, start + v.len())[y] == order[j]);
    assert(text_less(lower(u.name(v[x])), lower(u.name(v[y]))));
    texts_stand_in_dictionary_order(lower(u.name(v[x])), lower(u.name(v[y])));
    assert(entries[i] == raw_entry(u, order, i));
    assert(entries[j] == raw_entry(u, order, j));
    assert(1 <= u.nodes[order[p]].children[x] < u.nodes.len());
    assert(1 <= u.nodes[order[p]].children[y] < u.nodes.len());
    lemma_name_of(u, v[x]);
    lemma_name_of(u, v[y]);
}

/// The name of node `c` is found where its entry says.
proof fn lemma_name_of(u: TreeModel, c: int)
    requires
        u.wf(),
        fits_fields(u),
        names_storable(u),
        1 <= c < u.nodes.len(),
    ensures
        0 <= name_offset(u.names, u.nodes[c].name_index) <= 0x7FFF_FFFF,
        name_at(
            name_table(u.names, u.names.len() as int),
            name_offset(u.names, u.nodes[c].name_index),
        ) == Ok::<Seq<char>, ZarReadError>(u.name(c)),
{
    assert(0 <= u.nodes[c].name_index < u.names.len());
    lemma_name_at(u.names, u.nodes[c].name_index);
    lemma_name_table_grows(u.names, u.nodes[c].name_index, u.names.len() as int);
}

} // verus!
