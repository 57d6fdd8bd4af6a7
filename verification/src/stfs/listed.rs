//! What the listing of a written package says.
use crate::bytes::{
    be_bytes, field, le_bytes, lemma_be_round_trip, lemma_le_round_trip, lemma_pow256,
};
use crate::stfs::format::ROOT_ENTRY_INDEX;
use crate::stfs::layout::{
    add_files, add_path, find_node, leads_to, lists_files, node_path, parents_precede,
    planned_listing_holds_the_files, tree_of, NodeModel,
};
use crate::stfs::listing::{
    ancestors, block_entries, entry_path, last_with_index, listed_files, slot_of, EntryModel,
    ListedFile, StfsReadError,
};
use crate::stfs::plan::{is_entry_of, table_blocks, StfsLayout};
use crate::stfs::write::{entry_bytes, entry_name_bytes, name_len_byte, table_block};
use crate::utils::paths::{components, joined};
use crate::utils::safe_path::safe_component;
use vstd::prelude::*;
use vstd::utf8::{decode_utf8, encode_utf8, encode_utf8_decode_utf8, encode_utf8_valid_utf8};

verus! {

/// A name that a listing entry holds as it is: safe, and of at most 40 bytes in UTF-8.
pub open spec fn storable(name: Seq<char>) -> bool {
    safe_component(name) && encode_utf8(name).len() <= 0x28
}

/// What the listing says of entry `k` of a plan.
pub open spec fn planned_model(l: StfsLayout, k: int) -> EntryModel {
    let e = l.entries@[k];
    EntryModel {
        name: e.name@,
        entry_index: k as u16,
        path_indicator: e.parent_index,
        is_directory: e.is_directory,
        is_contiguous: e.is_contiguous,
        starting_block_num: e.starting_block_num,
        file_size: e.file_size,
    }
}

/// What the listing says of the entries from `from` to before `to`.
pub open spec fn planned_models(l: StfsLayout, from: int, to: int) -> Seq<EntryModel> {
    Seq::new((to - from) as nat, |j: int| planned_model(l, from + j))
}

proof fn lemma_name_len(name: Seq<char>)
    requires
        name.len() > 0,
    ensures
        encode_utf8(name).len() > 0,
{
    encode_utf8_decode_utf8(name);
    if encode_utf8(name).len() == 0 {
        assert(encode_utf8(name) =~= Seq::empty());
        assert(decode_utf8(Seq::<u8>::empty()).len() == 0);
    }
}

/// The bytes of a listing entry read back.
proof fn lemma_entry_bytes(l: StfsLayout, k: int, timestamp: u32)
    requires
        0 <= k < l.entries@.len(),
        storable(l.entries@[k].name@),
        l.entries@[k].starting_block_num < 0x100_0000,
    ensures
        slot_of(entry_bytes(l.entries@[k], timestamp), k as u16) == Some(planned_model(l, k)),
{
    broadcast use crate::bytes::group_fields;

    let e = l.entries@[k];
    let b = entry_bytes(e, timestamp);
    let utf8 = encode_utf8(e.name@);
    let n = utf8.len() as int;
    lemma_name_len(e.name@);
    lemma_pow256();
    assert(entry_name_bytes(e.name@) == utf8);
    let v = name_len_byte(e);
    assert(0 <= v < 0x100);
    assert(be_bytes(v as nat, 1)[0] == v) by {
        reveal_with_fuel(be_bytes, 2);
    }
    assert(b[0x28] == v);
    assert(v % 0x40 == n);
    assert(b.take(n) =~= utf8);
    encode_utf8_valid_utf8(e.name@);
    encode_utf8_decode_utf8(e.name@);
    assert(field(b, 0x2F, 3) == le_bytes(e.starting_block_num as nat, 3));
    assert(field(b, 0x32, 2) == be_bytes(e.parent_index as nat, 2));
    assert(field(b, 0x34, 4) == be_bytes(e.file_size as nat, 4));
    lemma_le_round_trip(e.starting_block_num as nat, 3);
    lemma_be_round_trip(e.parent_index as nat, 2);
    lemma_be_round_trip(e.file_size as nat, 4);
}

/// Every name of the plan is one that its entry holds as it is.
pub open spec fn names_storable(l: StfsLayout) -> bool {
    forall|k: int| 0 <= k < l.entries@.len() ==> storable((#[trigger] l.entries@[k]).name@)
}

/// Slot `j` of a block of the listing holds its entry, or nothing after the last.
proof fn lemma_table_slot(l: StfsLayout, t: int, timestamp: u32, j: int)
    requires
        l.wf(),
        names_storable(l),
        starts_fit(l),
        0 <= t < l.file_table_block_count,
        0 <= j < 0x40,
    ensures
        slot_of(field(table_block(l, t, timestamp), j * 0x40, 0x40), (t * 0x40 + j) as u16) == (
        if t * 0x40 + j < l.entries@.len() {
            Some(planned_model(l, t * 0x40 + j))
        } else {
            None
        }),
{
    broadcast use crate::bytes::group_fields;

    let at = t * 0x40 + j;
    let b = table_block(l, t, timestamp);
    let slot = field(b, j * 0x40, 0x40);
    if at < l.entries@.len() {
        let e = entry_bytes(l.entries@[at], timestamp);
        assert forall|x: int| 0 <= x < 0x40 implies #[trigger] slot[x] == e[x] by {
            let i = j * 0x40 + x;
            assert(i / 0x40 == j);
            assert(i % 0x40 == x);
        }
        assert(e.len() == 0x40);
        assert(slot =~= e);
        lemma_starts_fit(l, at);
        lemma_entry_bytes(l, at, timestamp);
    } else {
        let i = j * 0x40 + 0x28;
        assert(i / 0x40 == j);
        assert(slot[0x28] == b[i]);
    }
}

/// The first `n` of all entries from `first` on that `k` slots have room for.
spec fn room_end(first: int, k: int, n: int) -> int {
    if first + k < n {
        first + k
    } else {
        n
    }
}

/// What a block lists, whose slots hold the entries from `first` on.
proof fn lemma_entries_of(l: StfsLayout, b: Seq<u8>, first: int, k: int)
    requires
        0 <= k <= 0x40,
        0 <= first < l.entries@.len() < 0xFFFF,
        forall|j: int|
            0 <= j < 0x40 ==> slot_of(
                #[trigger] field(b, j * 0x40, 0x40),
                ((first + j) % 0x1_0000) as u16,
            ) == (if first + j < l.entries@.len() {
                Some(planned_model(l, first + j))
            } else {
                None
            }),
    ensures
        block_entries(b, first, k) == planned_models(
            l,
            first,
            room_end(first, k, l.entries@.len() as int),
        ),
    decreases k,
{
    if k > 0 {
        lemma_entries_of(l, b, first, k - 1);
        let slot = field(b, (k - 1) * 0x40, 0x40);
        let at = first + k - 1;
        assert(slot_of(slot, (at % 0x1_0000) as u16) == (if at < l.entries@.len() {
            Some(planned_model(l, at))
        } else {
            None
        }));
        if at < l.entries@.len() {
            assert(planned_models(l, first, at + 1) =~= planned_models(l, first, at).push(
                planned_model(l, at),
            ));
        }
    } else {
        assert(planned_models(l, first, first) =~= Seq::empty());
    }
}

/// What block `t` of the listing says.
pub proof fn lemma_block_entries(l: StfsLayout, t: int, timestamp: u32)
    requires
        l.wf(),
        names_storable(l),
        starts_fit(l),
        0 <= t < l.file_table_block_count,
    ensures
        block_entries(table_block(l, t, timestamp), t * 0x40, 0x40) == planned_models(
            l,
            t * 0x40,
            if t * 0x40 + 0x40 < l.entries@.len() {
                t * 0x40 + 0x40
            } else {
                l.entries@.len() as int
            },
        ),
{
    let b = table_block(l, t, timestamp);
    assert forall|j: int| 0 <= j < 0x40 implies slot_of(
        #[trigger] field(b, j * 0x40, 0x40),
        ((t * 0x40 + j) % 0x1_0000) as u16,
    ) == (if t * 0x40 + j < l.entries@.len() {
        Some(planned_model(l, t * 0x40 + j))
    } else {
        None
    }) by {
        lemma_table_slot(l, t, timestamp, j);
        assert((t * 0x40 + j) % 0x1_0000 == t * 0x40 + j);
    }
    lemma_entries_of(l, b, t * 0x40, 0x40);
}

/// Every entry starts at a block that three bytes can name.
pub open spec fn starts_fit(l: StfsLayout) -> bool {
    forall|k: int|
        0 <= k < l.entries@.len() && (#[trigger] l.entries@[k]).is_directory
            ==> l.entries@[k].starting_block_num == 0
}

proof fn lemma_starts_fit(l: StfsLayout, k: int)
    requires
        l.wf(),
        starts_fit(l),
        0 <= k < l.entries@.len(),
    ensures
        l.entries@[k].starting_block_num < 0x100_0000,
{
    let e = l.entries@[k];
    if !e.is_directory {
        assert(e.end_block() <= l.total_blocks);
    }
}

/// Only directories have something under them.
pub open spec fn parents_are_directories(nodes: Seq<NodeModel>) -> bool {
    forall|i: int|
        0 <= i < nodes.len() ==> ((#[trigger] nodes[i]).parent matches Some(p)
            ==> nodes[p].is_directory)
}

/// The entries of the plan are those of the nodes.
pub open spec fn is_planned(l: StfsLayout, nodes: Seq<NodeModel>) -> bool {
    &&& l.wf()
    &&& l.entries@.len() == nodes.len()
    &&& parents_precede(nodes)
    &&& parents_are_directories(nodes)
    &&& names_storable(l)
    &&& forall|k: int|
        0 <= k < nodes.len() ==> is_entry_of(
            #[trigger] l.entries@[k],
            nodes,
            table_blocks(nodes.len() as int),
            k,
        )
}

/// No file stands deeper than a reader follows.
pub open spec fn depths_fit(nodes: Seq<NodeModel>) -> bool {
    forall|k: int| 0 <= k < nodes.len() ==> (#[trigger] node_path(nodes, k)).len() <= 4096
}

proof fn lemma_last_with_index(l: StfsLayout, p: int, k: int)
    requires
        0 <= p < k <= l.entries@.len() < 0xFFFF,
    ensures
        last_with_index(planned_models(l, 0, l.entries@.len() as int), p as u16, k) == Some(p),
    decreases k,
{
    if p < k - 1 {
        lemma_last_with_index(l, p, k - 1);
    }
}

proof fn lemma_ancestors(l: StfsLayout, nodes: Seq<NodeModel>, p: int, steps: nat)
    requires
        is_planned(l, nodes),
        0 <= p < nodes.len(),
        nodes[p].is_directory,
        node_path(nodes, p).len() <= steps,
    ensures
        ancestors(planned_models(l, 0, nodes.len() as int), p as u16, steps) == Ok::<
            Seq<Seq<char>>,
            StfsReadError,
        >(node_path(nodes, p)),
    decreases p,
{
    let models = planned_models(l, 0, nodes.len() as int);
    lemma_last_with_index(l, p, nodes.len() as int);
    assert(is_entry_of(l.entries@[p], nodes, table_blocks(nodes.len() as int), p));
    assert(models[p] == planned_model(l, p));
    assert(storable(l.entries@[p].name@));
    match nodes[p].parent {
        Some(q) => {
            lemma_ancestors(l, nodes, q, (steps - 1) as nat);
        },
        None => {
            assert(node_path(nodes, p) =~= Seq::<Seq<char>>::empty().push(nodes[p].name));
            assert(ancestors(models, ROOT_ENTRY_INDEX, (steps - 1) as nat) == Ok::<
                Seq<Seq<char>>,
                StfsReadError,
            >(Seq::empty()));
        },
    }
}

proof fn lemma_entry_path(l: StfsLayout, nodes: Seq<NodeModel>, k: int)
    requires
        is_planned(l, nodes),
        depths_fit(nodes),
        0 <= k < nodes.len(),
    ensures
        entry_path(planned_models(l, 0, nodes.len() as int), k) == Ok::<
            Seq<Seq<char>>,
            StfsReadError,
        >(node_path(nodes, k)),
{
    let models = planned_models(l, 0, nodes.len() as int);
    assert(is_entry_of(l.entries@[k], nodes, table_blocks(nodes.len() as int), k));
    assert(models[k] == planned_model(l, k));
    assert(storable(l.entries@[k].name@));
    assert(node_path(nodes, k).len() <= 4096);
    match nodes[k].parent {
        Some(q) => {
            lemma_ancestors(l, nodes, q, 4095);
        },
        None => {
            assert(node_path(nodes, k) =~= Seq::<Seq<char>>::empty().push(nodes[k].name));
        },
    }
}

/// What is listed of entry `k`.
pub open spec fn planned_file(l: StfsLayout, nodes: Seq<NodeModel>, k: int) -> ListedFile {
    ListedFile {
        path: joined(node_path(nodes, k)),
        starting_block: l.entries@[k].starting_block_num,
        size: l.entries@[k].file_size,
        is_contiguous: l.entries@[k].is_contiguous,
    }
}

/// What is listed of the files among the first `k` entries.
pub open spec fn planned_files(l: StfsLayout, nodes: Seq<NodeModel>, k: int) -> Seq<ListedFile>
    decreases k,
{
    if k <= 0 {
        Seq::empty()
    } else if nodes[k - 1].is_directory {
        planned_files(l, nodes, k - 1)
    } else {
        planned_files(l, nodes, k - 1).push(planned_file(l, nodes, k - 1))
    }
}

/// The listing of a package names the files it was planned with.
pub proof fn lemma_listed_files(l: StfsLayout, nodes: Seq<NodeModel>, k: int)
    requires
        is_planned(l, nodes),
        depths_fit(nodes),
        0 <= k <= nodes.len(),
    ensures
        listed_files(planned_models(l, 0, nodes.len() as int), k) == Ok::<
            Seq<ListedFile>,
            StfsReadError,
        >(planned_files(l, nodes, k)),
    decreases k,
{
    if k > 0 {
        lemma_listed_files(l, nodes, k - 1);
        let models = planned_models(l, 0, nodes.len() as int);
        assert(is_entry_of(l.entries@[k - 1], nodes, table_blocks(nodes.len() as int), k - 1));
        assert(models[k - 1] == planned_model(l, k - 1));
        if !nodes[k - 1].is_directory {
            lemma_entry_path(l, nodes, k - 1);
        }
    }
}

/// The entry that is listed at `k`.
pub proof fn lemma_listed_where(l: StfsLayout, nodes: Seq<NodeModel>, k: int, n: int) -> (j: int)
    requires
        0 <= k < planned_files(l, nodes, n).len(),
    ensures
        0 <= j < n,
        !nodes[j].is_directory,
        planned_files(l, nodes, n)[k] == planned_file(l, nodes, j),
        planned_files(l, nodes, j).len() == k,
    decreases n,
{
    if k < planned_files(l, nodes, n - 1).len() {
        lemma_listed_where(l, nodes, k, n - 1)
    } else {
        n - 1
    }
}

/// No file's path is that of another file or of a directory that another stands in.
pub open spec fn paths_apart(files: Seq<(Seq<char>, int)>) -> bool {
    forall|f: int, g: int|
        0 <= f < files.len() && 0 <= g < files.len() && f != g ==> !#[trigger] lies_within(
            components(files[f].0),
            components(files[g].0),
        )
}

/// `a` is the path `b` or that of a directory on the way to it.
pub open spec fn lies_within(a: Seq<Seq<char>>, b: Seq<Seq<char>>) -> bool {
    a.len() <= b.len() && a == b.take(a.len() as int)
}

/// Where no path lies within another, only directories have something under them.
pub proof fn lemma_parents(nodes: Seq<NodeModel>, files: Seq<(Seq<char>, int)>)
    requires
        lists_files(nodes, files, files.len() as int),
        paths_apart(files),
    ensures
        parents_are_directories(nodes),
{
    let n = files.len() as int;
    assert forall|i: int|
        0 <= i < nodes.len() implies ((#[trigger] nodes[i]).parent matches Some(p)
        ==> nodes[p].is_directory) by {
        if let Some(p) = nodes[i].parent {
            if !nodes[p].is_directory {
                let f = nodes[p].source->Some_0;
                let path = node_path(nodes, p);
                let below = node_path(nodes, i);
                assert(path == components(files[f].0));
                assert(below == path.push(nodes[i].name));
                let g = if nodes[i].is_directory {
                    choose|g: int| 0 <= g < n && leads_to(below, components((#[trigger] files[g]).0))
                } else {
                    nodes[i].source->Some_0
                };
                let whole = components(files[g].0);
                assert(below == whole.take(below.len() as int));
                assert(path =~= whole.take(path.len() as int)) by {
                    assert forall|x: int| 0 <= x < path.len() implies path[x] == whole[x] by {
                        assert(below[x] == path[x]);
                    }
                }
                assert(lies_within(components(files[f].0), components(files[g].0)));
                assert(f == g);
                assert(below.len() > path.len());
            }
        }
    }
}

/// Where no path lies within another, the node with a file's path is that file's.
pub proof fn lemma_own_node(nodes: Seq<NodeModel>, files: Seq<(Seq<char>, int)>, f: int) -> (j: int)
    requires
        lists_files(nodes, files, files.len() as int),
        paths_apart(files),
        0 <= f < files.len(),
    ensures
        0 <= j < nodes.len(),
        nodes[j].source == Some(f),
        !nodes[j].is_directory,
        node_path(nodes, j) == components(files[f].0),
{
    let n = files.len() as int;
    let j = choose|j: int|
        0 <= j < nodes.len() && #[trigger] node_path(nodes, j) == components(files[f].0);
    let path = node_path(nodes, j);
    if nodes[j].is_directory {
        let g = choose|g: int| 0 <= g < n && leads_to(path, components((#[trigger] files[g]).0));
        assert(lies_within(components(files[f].0), components(files[g].0)));
        assert(f == g);
    } else {
        let g = nodes[j].source->Some_0;
        assert(path.take(path.len() as int) =~= path);
        assert(lies_within(components(files[f].0), components(files[g].0)));
    }
    j
}

/// No two nodes have the same name in the same directory.
pub open spec fn nodes_differ(nodes: Seq<NodeModel>) -> bool {
    forall|i: int, j: int|
        0 <= i < j < nodes.len() ==> !((#[trigger] nodes[i]).parent == (#[trigger] nodes[j]).parent
            && nodes[i].name == nodes[j].name)
}

proof fn lemma_not_found(nodes: Seq<NodeModel>, parent: Option<int>, name: Seq<char>, k: int)
    requires
        0 <= k,
        find_node(nodes, parent, name, k) is None,
    ensures
        forall|i: int|
            k <= i < nodes.len() ==> !((#[trigger] nodes[i]).parent == parent && nodes[i].name
                == name),
    decreases nodes.len() - k,
{
    if k < nodes.len() {
        lemma_not_found(nodes, parent, name, k + 1);
    }
}

proof fn lemma_path_differs(
    nodes: Seq<NodeModel>,
    parts: Seq<Seq<char>>,
    depth: int,
    parent: Option<int>,
    file: int,
    size: int,
)
    requires
        nodes_differ(nodes),
        0 <= depth,
    ensures
        add_path(nodes, parts, depth, parent, file, size) matches Some(r) ==> nodes_differ(r),
    decreases parts.len() - depth,
{
    if depth < parts.len() {
        let is_last = depth == parts.len() - 1;
        match find_node(nodes, parent, parts[depth], 0) {
            Some(i) => {
                lemma_path_differs(nodes, parts, depth + 1, Some(i), file, size);
            },
            None => {
                lemma_not_found(nodes, parent, parts[depth], 0);
                let node = NodeModel {
                    name: parts[depth],
                    is_directory: !is_last,
                    parent,
                    source: if is_last {
                        Some(file)
                    } else {
                        None
                    },
                    file_size: if is_last {
                        size
                    } else {
                        0
                    },
                };
                let more = nodes.push(node);
                assert(nodes_differ(more));
                lemma_path_differs(more, parts, depth + 1, Some(nodes.len() as int), file, size);
            },
        }
    }
}

proof fn lemma_files_differ(nodes: Seq<NodeModel>, files: Seq<(Seq<char>, int)>, i: int)
    requires
        nodes_differ(nodes),
        0 <= i,
    ensures
        add_files(nodes, files, i) matches Ok(r) ==> nodes_differ(r),
    decreases files.len() - i,
{
    if i < files.len() && components(files[i].0).len() > 0 {
        let parts = components(files[i].0);
        lemma_path_differs(nodes, parts, 0, None, i, files[i].1);
        if let Some(m) = add_path(nodes, parts, 0, None, i, files[i].1) {
            lemma_files_differ(m, files, i + 1);
        }
    }
}

/// No two entries of a planned listing have the same path.
pub proof fn planned_paths_differ(files: Seq<(Seq<char>, int)>, a: int, b: int)
    ensures
        tree_of(files) matches Ok(nodes) ==> (0 <= a < b < nodes.len() ==> node_path(nodes, a)
            != node_path(nodes, b)),
{
    lemma_files_differ(Seq::empty(), files, 0);
    planned_listing_holds_the_files(files);
    if let Ok(nodes) = tree_of(files) {
        if 0 <= a < b < nodes.len() && node_path(nodes, a) == node_path(nodes, b) {
            lemma_same_path(nodes, a, b);
        }
    }
}

proof fn lemma_same_path(nodes: Seq<NodeModel>, a: int, b: int)
    requires
        parents_precede(nodes),
        nodes_differ(nodes),
        0 <= a < nodes.len(),
        0 <= b < nodes.len(),
        node_path(nodes, a) == node_path(nodes, b),
    ensures
        a == b,
    decreases a + b,
{
    let x = node_path(nodes, a);
    let y = node_path(nodes, b);
    assert(x.last() == nodes[a].name);
    assert(y.last() == nodes[b].name);
    match nodes[a].parent {
        Some(p) => {
            assert(x.drop_last() =~= node_path(nodes, p));
            lemma_path_is_there(nodes, p);
            match nodes[b].parent {
                Some(q) => {
                    assert(y.drop_last() =~= node_path(nodes, q));
                    lemma_same_path(nodes, p, q);
                },
                None => {
                    assert(x.len() == 1);
                },
            }
        },
        None => {
            assert(x.len() == 1);
            if let Some(q) = nodes[b].parent {
                assert(y.drop_last() =~= node_path(nodes, q));
                lemma_path_is_there(nodes, q);
            }
        },
    }
    if a < b {
        assert(!(nodes[a].parent == nodes[b].parent && nodes[a].name == nodes[b].name));
    } else if b < a {
        assert(!(nodes[b].parent == nodes[a].parent && nodes[b].name == nodes[a].name));
    }
}

proof fn lemma_path_is_there(nodes: Seq<NodeModel>, i: int)
    requires
        0 <= i < nodes.len(),
    ensures
        node_path(nodes, i).len() > 0,
{
}

/// The input files that the first `k` nodes were made for.
pub open spec fn sources(nodes: Seq<NodeModel>, k: int) -> Seq<int>
    decreases k,
{
    if k <= 0 {
        Seq::empty()
    } else {
        match nodes[k - 1].source {
            Some(f) => sources(nodes, k - 1).push(f),
            None => sources(nodes, k - 1),
        }
    }
}

/// The nodes were made for files in their order, and for none from number `n` on.
spec fn made_in_order(nodes: Seq<NodeModel>, n: int) -> bool {
    let s = sources(nodes, nodes.len() as int);
    &&& forall|a: int, b: int| 0 <= a < b < s.len() ==> #[trigger] s[a] < #[trigger] s[b]
    &&& forall|a: int| 0 <= a < s.len() ==> 0 <= #[trigger] s[a] < n
}

proof fn lemma_sources_prefix(a: Seq<NodeModel>, b: Seq<NodeModel>, k: int)
    requires
        k <= a.len() <= b.len(),
        forall|i: int| 0 <= i < k ==> a[i] == b[i],
    ensures
        sources(a, k) == sources(b, k),
    decreases k,
{
    if k > 0 {
        lemma_sources_prefix(a, b, k - 1);
    }
}

proof fn lemma_sources_so_far(nodes: Seq<NodeModel>, k: int, n: int)
    requires
        0 <= k <= n,
    ensures
        sources(nodes, k).len() <= sources(nodes, n).len(),
        sources(nodes, n).take(sources(nodes, k).len() as int) == sources(nodes, k),
    decreases n - k,
{
    if k == n {
        assert(sources(nodes, n).take(sources(nodes, n).len() as int) =~= sources(nodes, n));
    } else {
        lemma_sources_so_far(nodes, k, n - 1);
        assert(sources(nodes, n).take(sources(nodes, k).len() as int) =~= sources(
            nodes,
            n - 1,
        ).take(sources(nodes, k).len() as int));
    }
}

proof fn lemma_path_in_order(
    nodes: Seq<NodeModel>,
    parts: Seq<Seq<char>>,
    depth: int,
    parent: Option<int>,
    file: int,
    size: int,
)
    requires
        made_in_order(nodes, file),
        0 <= depth,
        0 <= file,
    ensures
        add_path(nodes, parts, depth, parent, file, size) matches Some(r) ==> made_in_order(
            r,
            file + 1,
        ),
    decreases parts.len() - depth,
{
    if depth < parts.len() {
        let is_last = depth == parts.len() - 1;
        match find_node(nodes, parent, parts[depth], 0) {
            Some(i) => {
                lemma_path_in_order(nodes, parts, depth + 1, Some(i), file, size);
            },
            None => {
                let node = NodeModel {
                    name: parts[depth],
                    is_directory: !is_last,
                    parent,
                    source: if is_last {
                        Some(file)
                    } else {
                        None
                    },
                    file_size: if is_last {
                        size
                    } else {
                        0
                    },
                };
                let more = nodes.push(node);
                lemma_sources_prefix(nodes, more, nodes.len() as int);
                if is_last {
                    let s = sources(nodes, nodes.len() as int);
                    assert(sources(more, more.len() as int) == s.push(file));
                    assert(made_in_order(more, file + 1));
                    assert(add_path(more, parts, depth + 1, Some(nodes.len() as int), file, size)
                        == Some(more));
                } else {
                    lemma_path_in_order(
                        more,
                        parts,
                        depth + 1,
                        Some(nodes.len() as int),
                        file,
                        size,
                    );
                }
            },
        }
    }
}

proof fn lemma_files_in_order(nodes: Seq<NodeModel>, files: Seq<(Seq<char>, int)>, i: int)
    requires
        made_in_order(nodes, i),
        0 <= i <= files.len(),
    ensures
        add_files(nodes, files, i) matches Ok(r) ==> made_in_order(r, files.len() as int),
    decreases files.len() - i,
{
    if i < files.len() && components(files[i].0).len() > 0 {
        let parts = components(files[i].0);
        lemma_path_in_order(nodes, parts, 0, None, i, files[i].1);
        if let Some(m) = add_path(nodes, parts, 0, None, i, files[i].1) {
            lemma_files_in_order(m, files, i + 1);
        }
    }
}

/// A growing sequence that holds each number below `n` counts up to `n`.
proof fn lemma_counts(s: Seq<int>, n: int, k: int)
    requires
        forall|a: int, b: int| 0 <= a < b < s.len() ==> #[trigger] s[a] < #[trigger] s[b],
        forall|a: int| 0 <= a < s.len() ==> 0 <= #[trigger] s[a] < n,
        forall|f: int| 0 <= f < n ==> #[trigger] s.contains(f),
        0 <= k <= n,
    ensures
        k <= s.len(),
        forall|a: int| 0 <= a < k ==> #[trigger] s[a] == a,
    decreases k,
{
    if k > 0 {
        lemma_counts(s, n, k - 1);
        assert(s.contains(k - 1));
        let m = choose|m: int| 0 <= m < s.len() && s[m] == k - 1;
        if m < k - 1 {
            assert(s[m] == m);
        } else if m > k - 1 {
            assert(s[k - 1] < s[m]);
            if k - 1 > 0 {
                assert(s[k - 2] < s[k - 1]);
                assert(s[k - 2] == k - 2);
            }
        }
    }
}

/// Where no path lies within another, the files are listed in the order they were given in.
pub proof fn planned_files_keep_their_order(
    l: StfsLayout,
    files: Seq<(Seq<char>, int)>,
    nodes: Seq<NodeModel>,
)
    requires
        tree_of(files) == Ok::<Seq<NodeModel>, crate::stfs::layout::PlanError>(nodes),
        paths_apart(files),
    ensures
        planned_files(l, nodes, nodes.len() as int).len() == files.len(),
        forall|k: int| 0 <= k < files.len() ==> #[trigger] is_listed_as(l, nodes, k, k),
{
    let n = nodes.len() as int;
    planned_listing_holds_the_files(files);
    assert(made_in_order(Seq::empty(), 0));
    lemma_files_in_order(Seq::empty(), files, 0);
    let s = sources(nodes, n);
    assert forall|f: int| 0 <= f < files.len() implies #[trigger] s.contains(f) by {
        let j = lemma_own_node(nodes, files, f);
        lemma_sources_so_far(nodes, j + 1, n);
        let before = sources(nodes, j);
        assert(sources(nodes, j + 1) == before.push(f));
        assert(s.take(before.len() as int + 1)[before.len() as int] == f);
        assert(s[before.len() as int] == f);
    }
    lemma_counts(s, files.len() as int, files.len() as int);
    if s.len() > files.len() {
        let m = files.len() as int;
        if m > 0 {
            assert(s[m - 1] < s[m]);
        }
        assert(s[m] < m);
    }
    lemma_as_many(l, nodes, n);
    assert forall|k: int| 0 <= k < files.len() implies #[trigger] is_listed_as(l, nodes, k, k) by {
        let j = lemma_listed_where(l, nodes, k, n);
        lemma_as_many(l, nodes, j);
        lemma_sources_so_far(nodes, j + 1, n);
        assert(nodes[j].source is Some);
        assert(sources(nodes, j + 1) == sources(nodes, j).push(nodes[j].source->Some_0));
        assert(s.take(k + 1)[k] == s[k]);
        assert(s[k] == k);
    }
}

/// The file listed at `k` is that of a node that was made for input file `f`.
pub open spec fn is_listed_as(l: StfsLayout, nodes: Seq<NodeModel>, k: int, f: int) -> bool {
    exists|j: int|
        0 <= j < nodes.len() && nodes[j].source == Some(f) && !nodes[j].is_directory
            && planned_files(l, nodes, nodes.len() as int)[k] == #[trigger] planned_file(
            l,
            nodes,
            j,
        )
}

proof fn lemma_as_many(l: StfsLayout, nodes: Seq<NodeModel>, k: int)
    requires
        0 <= k <= nodes.len(),
        forall|j: int|
            0 <= j < nodes.len() ==> ((#[trigger] nodes[j]).is_directory <==> nodes[j].source is None),
    ensures
        planned_files(l, nodes, k).len() == sources(nodes, k).len(),
    decreases k,
{
    if k > 0 {
        lemma_as_many(l, nodes, k - 1);
        assert(nodes[k - 1].is_directory <==> nodes[k - 1].source is None);
    }
}

} // verus!
