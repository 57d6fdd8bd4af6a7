//! The path tree of an archive that is written.

use crate::utils::paths::{components, split_path, texts};
use crate::utils::text::{lower, lower_chars, same_chars};
use vstd::multiset::*;
use vstd::prelude::*;
use vstd::string::*;

verus! {

broadcast use crate::bytes::group_fields;

/// A node of the path tree.
pub struct NodeModel {
    pub is_file: bool,
    pub name_index: int,
    pub parent: int,
    pub children: Seq<int>,
    pub offset: int,
    pub size: int,
}

/// A path tree: its nodes, the root first, and the names they are called by.
pub struct TreeModel {
    pub nodes: Seq<NodeModel>,
    pub names: Seq<Seq<char>>,
}

/// Why paths cannot be put in one tree.
#[derive(Clone, Copy, Debug, PartialEq, Eq, Structural)]
pub enum TreeError {
    EmptyPath,
    DuplicatePath,
    FileAsDirectory,
    /// Names, nodes or data outgrow the fields of the format.
    TooLarge,
}

impl TreeError {
    pub fn message(&self) -> (r: &'static str)
        ensures
            r@ == match *self {
                TreeError::EmptyPath => "zar: empty path"@,
                TreeError::DuplicatePath => "zar: duplicate path"@,
                TreeError::FileAsDirectory => "zar: path treats a file as a directory"@,
                TreeError::TooLarge => "zar: too many names or too much data"@,
            },
    {
        match *self {
            TreeError::EmptyPath => "zar: empty path",
            TreeError::DuplicatePath => "zar: duplicate path",
            TreeError::FileAsDirectory => "zar: path treats a file as a directory",
            TreeError::TooLarge => "zar: too many names or too much data",
        }
    }
}

/// Where `name` stands among `names` from `k` on.
pub open spec fn name_position(names: Seq<Seq<char>>, name: Seq<char>, k: int) -> Option<int>
    decreases names.len() - k,
{
    if k < 0 || k >= names.len() {
        None
    } else if names[k] == name {
        Some(k)
    } else {
        name_position(names, name, k + 1)
    }
}

/// `names` with `name` among them.
pub open spec fn with_name(names: Seq<Seq<char>>, name: Seq<char>) -> Seq<Seq<char>> {
    if name_position(names, name, 0) is Some {
        names
    } else {
        names.push(name)
    }
}

/// The index of `name` once it is among `names`.
pub open spec fn interned(names: Seq<Seq<char>>, name: Seq<char>) -> int {
    match name_position(names, name, 0) {
        Some(i) => i,
        None => names.len() as int,
    }
}

impl TreeModel {
    pub open spec fn name(self, i: int) -> Seq<char> {
        self.names[self.nodes[i].name_index]
    }

    /// Every node but the root is a child of its parent, which is a directory made before it;
    /// names of siblings differ in more than case.
    pub open spec fn wf(self) -> bool {
        &&& self.nodes.len() >= 1
        &&& !self.nodes[0].is_file
        &&& forall|i: int|
            1 <= i < self.nodes.len() ==> {
                let n = #[trigger] self.nodes[i];
                &&& 0 <= n.parent < i
                &&& !self.nodes[n.parent].is_file
                &&& self.nodes[n.parent].children.contains(i)
                &&& 0 <= n.name_index < self.names.len()
            }
        &&& forall|p: int, j: int|
            0 <= p < self.nodes.len() && 0 <= j < self.nodes[p].children.len() ==> {
                let c = #[trigger] self.nodes[p].children[j];
                &&& 1 <= c < self.nodes.len()
                &&& self.nodes[c].parent == p
                &&& !self.nodes[p].is_file
            }
        &&& forall|p: int, j: int, k: int|
            0 <= p < self.nodes.len() && 0 <= j < k < self.nodes[p].children.len() ==> lower(
                self.name(#[trigger] self.nodes[p].children[j]),
            ) != lower(self.name(#[trigger] self.nodes[p].children[k]))
    }

    /// The names from the root down to node `i`.
    pub open spec fn path(self, i: int) -> Seq<Seq<char>>
        decreases i,
    {
        if i <= 0 || i >= self.nodes.len() || !(0 <= self.nodes[i].parent < i) {
            Seq::empty()
        } else {
            self.path(self.nodes[i].parent).push(self.name(i))
        }
    }

    /// The first child of node `at`, from number `k` on, whose name is `part` but for case.
    pub open spec fn child_named(self, at: int, part: Seq<char>, k: int) -> Option<int>
        decreases self.nodes[at].children.len() - k,
    {
        if k < 0 || k >= self.nodes[at].children.len() {
            None
        } else if lower(self.name(self.nodes[at].children[k])) == lower(part) {
            Some(self.nodes[at].children[k])
        } else {
            self.child_named(at, part, k + 1)
        }
    }

    /// The tree with a new child of node `at`.
    pub open spec fn with_child(
        self,
        at: int,
        part: Seq<char>,
        is_file: bool,
        offset: int,
        size: int,
    ) -> TreeModel {
        let new = self.nodes.len() as int;
        let node = NodeModel {
            is_file,
            name_index: interned(self.names, part),
            parent: at,
            children: Seq::empty(),
            offset: if is_file {
                offset
            } else {
                0
            },
            size: if is_file {
                size
            } else {
                0
            },
        };
        TreeModel {
            nodes: self.nodes.push(node).update(
                at,
                NodeModel { children: self.nodes[at].children.push(new), ..self.nodes[at] },
            ),
            names: with_name(self.names, part),
        }
    }

    /// The tree with the file at `parts` in it, walked from component `depth` at node `at`.
    /// Components are matched without regard to case; what is missing is made.
    pub open spec fn with_path(
        self,
        parts: Seq<Seq<char>>,
        depth: int,
        at: int,
        offset: int,
        size: int,
    ) -> Result<TreeModel, TreeError>
        decreases parts.len() - depth,
    {
        if depth < 0 || depth >= parts.len() {
            Ok(self)
        } else {
            let is_last = depth == parts.len() - 1;
            match self.child_named(at, parts[depth], 0) {
                Some(c) => if is_last {
                    Err(TreeError::DuplicatePath)
                } else if self.nodes[c].is_file {
                    Err(TreeError::FileAsDirectory)
                } else {
                    self.with_path(parts, depth + 1, c, offset, size)
                },
                None => self.with_child(at, parts[depth], is_last, offset, size).with_path(
                    parts,
                    depth + 1,
                    self.nodes.len() as int,
                    offset,
                    size,
                ),
            }
        }
    }
}

/// The tree that holds only the root.
pub open spec fn empty_tree() -> TreeModel {
    TreeModel {
        nodes: seq![
            NodeModel {
                is_file: false,
                name_index: 0,
                parent: 0,
                children: Seq::empty(),
                offset: 0,
                size: 0,
            },
        ],
        names: Seq::empty(),
    }
}

/// How many bytes the first `k` files take.
pub open spec fn data_before(files: Seq<(Seq<char>, int)>, k: int) -> int
    decreases k,
{
    if k <= 0 {
        0
    } else {
        data_before(files, k - 1) + files[k - 1].1
    }
}

/// The tree of the first `k` files, their data back to back in order.
pub open spec fn tree_of_files(files: Seq<(Seq<char>, int)>, k: int) -> Result<TreeModel, TreeError>
    decreases k,
{
    if k <= 0 {
        Ok(empty_tree())
    } else {
        match tree_of_files(files, k - 1) {
            Err(e) => Err(e),
            Ok(t) => if components(files[k - 1].0).len() == 0 {
                Err(TreeError::EmptyPath)
            } else {
                t.with_path(
                    components(files[k - 1].0),
                    0,
                    0,
                    data_before(files, k - 1),
                    files[k - 1].1,
                )
            },
        }
    }
}

proof fn lemma_name_position(names: Seq<Seq<char>>, name: Seq<char>, k: int)
    requires
        0 <= k,
    ensures
        name_position(names, name, k) matches Some(i) ==> k <= i < names.len() && names[i] == name,
    decreases names.len() - k,
{
    if k < names.len() && names[k] != name {
        lemma_name_position(names, name, k + 1);
    }
}

proof fn lemma_child_named(t: TreeModel, at: int, part: Seq<char>, k: int)
    requires
        0 <= k,
    ensures
        match t.child_named(at, part, k) {
            Some(c) => exists|j: int|
                k <= j < t.nodes[at].children.len() && c == #[trigger] t.nodes[at].children[j]
                    && lower(t.name(c)) == lower(part),
            None => forall|j: int|
                k <= j < t.nodes[at].children.len() ==> lower(
                    t.name(#[trigger] t.nodes[at].children[j]),
                ) != lower(part),
        },
    decreases t.nodes[at].children.len() - k,
{
    if k < t.nodes[at].children.len() && lower(t.name(t.nodes[at].children[k])) != lower(part) {
        lemma_child_named(t, at, part, k + 1);
    }
}

/// `big` holds the nodes and names of `small`, at their places; directories may have gained
/// children.
pub open spec fn grows(small: TreeModel, big: TreeModel) -> bool {
    &&& small.nodes.len() <= big.nodes.len()
    &&& small.names.len() <= big.names.len()
    &&& forall|i: int| 0 <= i < small.names.len() ==> #[trigger] big.names[i] == small.names[i]
    &&& forall|i: int|
        0 <= i < small.nodes.len() ==> {
            let a = small.nodes[i];
            let b = #[trigger] big.nodes[i];
            &&& a.is_file == b.is_file
            &&& a.name_index == b.name_index
            &&& a.parent == b.parent
            &&& a.offset == b.offset
            &&& a.size == b.size
        }
}

proof fn lemma_path_kept(small: TreeModel, big: TreeModel, i: int)
    requires
        small.wf(),
        grows(small, big),
        0 <= i < small.nodes.len(),
    ensures
        big.path(i) == small.path(i),
    decreases i,
{
    assert(big.nodes[i].parent == small.nodes[i].parent);
    if i > 0 {
        assert(0 <= small.nodes[i].parent < i);
        lemma_path_kept(small, big, small.nodes[i].parent);
        assert(big.name(i) == small.name(i));
    }
}

proof fn lemma_with_child(
    t: TreeModel,
    at: int,
    part: Seq<char>,
    is_file: bool,
    offset: int,
    size: int,
)
    requires
        t.wf(),
        0 <= at < t.nodes.len(),
        !t.nodes[at].is_file,
        t.child_named(at, part, 0) is None,
    ensures
        ({
            let u = t.with_child(at, part, is_file, offset, size);
            &&& u.wf()
            &&& grows(t, u)
            &&& u.nodes.len() == t.nodes.len() + 1
            &&& u.path(t.nodes.len() as int) == t.path(at).push(part)
            &&& u.name(t.nodes.len() as int) == part
            &&& u.nodes[t.nodes.len() as int].children.len() == 0
        }),
{
    let u = t.with_child(at, part, is_file, offset, size);
    let new = t.nodes.len() as int;
    lemma_name_position(t.names, part, 0);
    lemma_child_named(t, at, part, 0);
    assert(u.name(new) == part);
    assert(u.nodes[at].children[t.nodes[at].children.len() as int] == new);
    assert forall|i: int| 0 <= i < t.nodes.len() implies ({
        let a = t.nodes[i];
        let b = #[trigger] u.nodes[i];
        &&& a.is_file == b.is_file
        &&& a.name_index == b.name_index
        &&& a.parent == b.parent
        &&& a.offset == b.offset
        &&& a.size == b.size
    }) by {
    }
    assert(grows(t, u));
    assert forall|i: int| 1 <= i < t.nodes.len() implies u.name(i) == t.name(i) by {
        assert(0 <= t.nodes[i].name_index < t.names.len());
    }
    assert forall|i: int| 1 <= i < u.nodes.len() implies ({
        let n = #[trigger] u.nodes[i];
        &&& 0 <= n.parent < i
        &&& !u.nodes[n.parent].is_file
        &&& u.nodes[n.parent].children.contains(i)
        &&& 0 <= n.name_index < u.names.len()
    }) by {
        if i < new {
            let p = t.nodes[i].parent;
            let j = choose|j: int|
                0 <= j < t.nodes[p].children.len() && t.nodes[p].children[j] == i;
            assert(u.nodes[p].children[j] == i);
        }
    }
    assert forall|p: int, j: int|
        0 <= p < u.nodes.len() && 0 <= j < u.nodes[p].children.len() implies ({
        let c = #[trigger] u.nodes[p].children[j];
        &&& 1 <= c < u.nodes.len()
        &&& u.nodes[c].parent == p
        &&& !u.nodes[p].is_file
    }) by {
        if p < new && j < t.nodes[p].children.len() {
            assert(u.nodes[p].children[j] == t.nodes[p].children[j]);
        }
    }
    assert forall|p: int, j: int, k: int|
        0 <= p < u.nodes.len() && 0 <= j < k < u.nodes[p].children.len() implies lower(
        u.name(#[trigger] u.nodes[p].children[j]),
    ) != lower(u.name(#[trigger] u.nodes[p].children[k])) by {
        assert(u.nodes[p].children[j] == t.nodes[p].children[j]);
        let c = t.nodes[p].children[j];
        assert(u.name(c) == t.name(c));
        if k < t.nodes[p].children.len() {
            assert(u.nodes[p].children[k] == t.nodes[p].children[k]);
            let d = t.nodes[p].children[k];
            assert(u.name(d) == t.name(d));
        }
    }
    lemma_path_kept(t, u, at);
}

/// The new tree has the old one's nodes, and one new file: its path spells the last component
/// as given, and it has this offset and size.
pub open spec fn file_added(
    old_tree: TreeModel,
    new_tree: TreeModel,
    parts: Seq<Seq<char>>,
    offset: int,
    size: int,
) -> bool {
    let leaf = new_tree.nodes.len() - 1;
    &&& new_tree.wf()
    &&& grows(old_tree, new_tree)
    &&& old_tree.nodes.len() <= leaf
    &&& new_tree.nodes[leaf].is_file
    &&& new_tree.nodes[leaf].offset == offset
    &&& new_tree.nodes[leaf].size == size
    &&& forall|i: int|
        old_tree.nodes.len() <= i < leaf ==> !(#[trigger] new_tree.nodes[i]).is_file
    &&& new_tree.path(leaf).len() == parts.len()
    &&& new_tree.path(leaf).last() == parts.last()
    &&& same_but_case(new_tree.path(leaf), parts)
}

/// Two paths are the same but for case.
pub open spec fn same_but_case(a: Seq<Seq<char>>, b: Seq<Seq<char>>) -> bool {
    a.len() == b.len() && forall|i: int| 0 <= i < a.len() ==> lower(#[trigger] a[i]) == lower(b[i])
}

proof fn lemma_with_path(
    t: TreeModel,
    parts: Seq<Seq<char>>,
    depth: int,
    at: int,
    offset: int,
    size: int,
)
    requires
        t.wf(),
        0 <= depth < parts.len(),
        0 <= at < t.nodes.len(),
        !t.nodes[at].is_file,
        same_but_case(t.path(at), parts.take(depth)),
    ensures
        t.with_path(parts, depth, at, offset, size) matches Ok(u) ==> file_added(
            t,
            u,
            parts,
            offset,
            size,
        ),
    decreases parts.len() - depth,
{
    let is_last = depth == parts.len() - 1;
    let part = parts[depth];
    lemma_child_named(t, at, part, 0);
    assert(parts.take(depth + 1) =~= parts.take(depth).push(part));
    match t.child_named(at, part, 0) {
        Some(c) => {
            if !is_last && !t.nodes[c].is_file {
                let j = choose|j: int|
                    0 <= j < t.nodes[at].children.len() && c == #[trigger] t.nodes[at].children[j];
                assert(t.nodes[c].parent == at);
                assert(at < c);
                assert(t.path(c) == t.path(at).push(t.name(c)));
                lemma_with_path(t, parts, depth + 1, c, offset, size);
            }
        },
        None => {
            let u = t.with_child(at, part, is_last, offset, size);
            let new = t.nodes.len() as int;
            lemma_with_child(t, at, part, is_last, offset, size);
            if is_last {
                assert(u.with_path(parts, depth + 1, new, offset, size) == Ok::<
                    TreeModel,
                    TreeError,
                >(u));
                assert(parts.take(depth + 1) =~= parts);
            } else {
                lemma_with_path(u, parts, depth + 1, new, offset, size);
                if let Ok(v) = u.with_path(parts, depth + 1, new, offset, size) {
                    lemma_grows_transitive(t, u, v);
                    assert(!v.nodes[new].is_file) by {
                        assert(u.nodes[new].is_file == v.nodes[new].is_file);
                    }
                }
            }
        },
    }
}

proof fn lemma_grows_transitive(a: TreeModel, b: TreeModel, c: TreeModel)
    requires
        grows(a, b),
        grows(b, c),
    ensures
        grows(a, c),
{
    assert forall|i: int| 0 <= i < a.names.len() implies #[trigger] c.names[i] == a.names[i] by {
        assert(b.names[i] == a.names[i]);
    }
    assert forall|i: int| 0 <= i < a.nodes.len() implies ({
        let x = a.nodes[i];
        let y = #[trigger] c.nodes[i];
        &&& x.is_file == y.is_file
        &&& x.name_index == y.name_index
        &&& x.parent == y.parent
        &&& x.offset == y.offset
        &&& x.size == y.size
    }) by {
        assert(b.nodes[i].parent == a.nodes[i].parent);
    }
}

/// Node `i` stands for file `f`: its size, its data after the files before it, its path but
/// for the case of directories that an earlier path named first.
pub open spec fn stands_for(t: TreeModel, i: int, files: Seq<(Seq<char>, int)>, f: int) -> bool {
    &&& 0 <= i < t.nodes.len()
    &&& t.nodes[i].is_file
    &&& t.nodes[i].offset == data_before(files, f)
    &&& t.nodes[i].size == files[f].1
    &&& same_but_case(t.path(i), components(files[f].0))
    &&& t.path(i).len() > 0
    &&& t.path(i).last() == components(files[f].0).last()
}

/// Some node stands for file `f`.
pub open spec fn has_node(t: TreeModel, files: Seq<(Seq<char>, int)>, f: int) -> bool {
    exists|i: int| #[trigger] stands_for(t, i, files, f)
}

/// Node `i` stands for one of the first `k` files.
pub open spec fn has_file(t: TreeModel, i: int, files: Seq<(Seq<char>, int)>, k: int) -> bool {
    exists|f: int| 0 <= f < k && #[trigger] stands_for(t, i, files, f)
}

/// In the tree of a list of files every file has a node of its own that stands for it, and
/// every file node stands for one of them.
pub proof fn tree_holds_the_files(files: Seq<(Seq<char>, int)>, k: int)
    requires
        0 <= k <= files.len(),
    ensures
        tree_of_files(files, k) matches Ok(t) ==> {
            &&& t.wf()
            &&& forall|f: int| 0 <= f < k ==> #[trigger] has_node(t, files, f)
            &&& forall|i: int|
                0 <= i < t.nodes.len() && (#[trigger] t.nodes[i]).is_file ==> has_file(
                    t,
                    i,
                    files,
                    k,
                )
        },
    decreases k,
{
    if k > 0 {
        tree_holds_the_files(files, k - 1);
        if let Ok(t) = tree_of_files(files, k - 1) {
            let parts = components(files[k - 1].0);
            if parts.len() > 0 {
                assert(parts.take(0) =~= Seq::empty());
                lemma_with_path(t, parts, 0, 0, data_before(files, k - 1), files[k - 1].1);
                if let Ok(u) = tree_of_files(files, k) {
                    let leaf = u.nodes.len() - 1;
                    assert forall|f: int| 0 <= f < k implies #[trigger] has_node(u, files, f) by {
                        if f < k - 1 {
                            assert(has_node(t, files, f));
                            let i = choose|i: int| #[trigger] stands_for(t, i, files, f);
                            lemma_path_kept(t, u, i);
                            assert(u.nodes[i].is_file == t.nodes[i].is_file);
                            assert(stands_for(u, i, files, f));
                        } else {
                            assert(stands_for(u, leaf, files, f));
                        }
                    }
                    assert forall|i: int|
                        0 <= i < u.nodes.len() && (#[trigger] u.nodes[i]).is_file implies has_file(
                        u,
                        i,
                        files,
                        k,
                    ) by {
                        if i < t.nodes.len() {
                            assert(u.nodes[i].is_file == t.nodes[i].is_file);
                            assert(t.nodes[i].is_file);
                            assert(has_file(t, i, files, k - 1));
                            let f = choose|f: int|
                                0 <= f < k - 1 && #[trigger] stands_for(t, i, files, f);
                            lemma_path_kept(t, u, i);
                            assert(stands_for(u, i, files, f));
                        } else {
                            assert(i == leaf);
                            assert(stands_for(u, leaf, files, k - 1));
                        }
                    }
                }
            }
        }
    } else {
        let t = empty_tree();
        assert(t.wf());
    }
}

/// Once a component is missing, the rest of a path can be made.
proof fn lemma_missing_is_made(
    t: TreeModel,
    parts: Seq<Seq<char>>,
    depth: int,
    at: int,
    offset: int,
    size: int,
)
    requires
        t.wf(),
        0 <= depth,
        0 <= at < t.nodes.len(),
        depth < parts.len() ==> !t.nodes[at].is_file && t.child_named(at, parts[depth], 0) is None,
    ensures
        t.with_path(parts, depth, at, offset, size) is Ok,
    decreases parts.len() - depth,
{
    if depth < parts.len() {
        let is_last = depth == parts.len() - 1;
        let u = t.with_child(at, parts[depth], is_last, offset, size);
        lemma_with_child(t, at, parts[depth], is_last, offset, size);
        let new = t.nodes.len() as int;
        assert(u.nodes[new].children =~= Seq::empty());
        lemma_missing_is_made(u, parts, depth + 1, new, offset, size);
    }
}

/// Node `i` has the path `parts`, but for case.
pub open spec fn is_named(t: TreeModel, i: int, parts: Seq<Seq<char>>) -> bool {
    0 <= i < t.nodes.len() && same_but_case(t.path(i), parts)
}

/// Some node of the tree has the path `parts`, but for case.
pub open spec fn names_a_node(t: TreeModel, parts: Seq<Seq<char>>) -> bool {
    exists|i: int| #[trigger] is_named(t, i, parts)
}

/// Some file of the tree has the first `k` of `parts` for its path, but for case.
pub open spec fn file_stands_at(t: TreeModel, parts: Seq<Seq<char>>, k: int) -> bool {
    exists|i: int| #[trigger] is_named(t, i, parts.take(k)) && t.nodes[i].is_file
}

/// Some file of the tree stands on the way to the path `parts`.
pub open spec fn file_on_the_way(t: TreeModel, parts: Seq<Seq<char>>) -> bool {
    exists|k: int| 0 < k < parts.len() && #[trigger] file_stands_at(t, parts, k)
}

/// No two nodes have the same path, not even but for case.
pub proof fn paths_tell_nodes_apart(t: TreeModel, i: int, j: int)
    requires
        t.wf(),
        0 <= i < t.nodes.len(),
        0 <= j < t.nodes.len(),
        same_but_case(t.path(i), t.path(j)),
    ensures
        i == j,
    decreases i + j,
{
    if i > 0 && j > 0 {
        let p = t.nodes[i].parent;
        let q = t.nodes[j].parent;
        assert(t.path(i).drop_last() =~= t.path(p));
        assert(t.path(j).drop_last() =~= t.path(q));
        assert(t.path(i).last() == t.name(i));
        assert(t.path(j).last() == t.name(j));
        assert forall|x: int| 0 <= x < t.path(p).len() implies lower(#[trigger] t.path(p)[x])
            == lower(t.path(q)[x]) by {
            assert(t.path(i)[x] == t.path(p)[x]);
            assert(t.path(j)[x] == t.path(q)[x]);
        }
        assert(lower(t.path(i)[t.path(i).len() - 1]) == lower(t.path(j)[t.path(j).len() - 1]));
        paths_tell_nodes_apart(t, p, q);
        assert(t.nodes[p].children.contains(i) && t.nodes[p].children.contains(j));
        let a = choose|a: int| 0 <= a < t.nodes[p].children.len() && t.nodes[p].children[a] == i;
        let b = choose|b: int| 0 <= b < t.nodes[p].children.len() && t.nodes[p].children[b] == j;
        if a < b {
            assert(lower(t.name(t.nodes[p].children[a])) != lower(t.name(t.nodes[p].children[b])));
        } else if b < a {
            assert(lower(t.name(t.nodes[p].children[b])) != lower(t.name(t.nodes[p].children[a])));
        }
    } else if i > 0 {
        assert(t.path(i).len() > 0);
    } else if j > 0 {
        assert(t.path(j).len() > 0);
    }
}

proof fn lemma_parent_named(t: TreeModel, i: int, parts: Seq<Seq<char>>, k: int)
    requires
        t.wf(),
        0 < k <= parts.len(),
        is_named(t, i, parts.take(k)),
    ensures
        0 < i,
        is_named(t, t.nodes[i].parent, parts.take(k - 1)),
        lower(t.name(i)) == lower(parts[k - 1]),
{
    let q = t.nodes[i].parent;
    let a = t.path(i);
    assert(a.len() == k);
    assert(a.drop_last() =~= t.path(q));
    assert(a[k - 1] == t.name(i));
    assert(parts.take(k)[k - 1] == parts[k - 1]);
    assert forall|x: int| 0 <= x < k - 1 implies lower(#[trigger] t.path(q)[x]) == lower(
        parts.take(k - 1)[x],
    ) by {
        assert(t.path(q)[x] == a[x]);
        assert(parts.take(k)[x] == parts.take(k - 1)[x]);
    }
}

/// A path that is there has its beginnings there.
proof fn lemma_beginning_named(t: TreeModel, i: int, parts: Seq<Seq<char>>, k: int, d: int) -> (j:
    int)
    requires
        t.wf(),
        0 < d <= k <= parts.len(),
        is_named(t, i, parts.take(k)),
    ensures
        is_named(t, j, parts.take(d)),
    decreases k,
{
    if d == k {
        i
    } else {
        lemma_parent_named(t, i, parts, k);
        lemma_beginning_named(t, t.nodes[i].parent, parts, k - 1, d)
    }
}

proof fn lemma_same_node(t: TreeModel, i: int, j: int, parts: Seq<Seq<char>>)
    requires
        t.wf(),
        is_named(t, i, parts),
        is_named(t, j, parts),
    ensures
        i == j,
{
    let a = t.path(i);
    let b = t.path(j);
    assert forall|x: int| 0 <= x < a.len() implies lower(#[trigger] a[x]) == lower(b[x]) by {
        assert(lower(b[x]) == lower(parts[x]));
    }
    paths_tell_nodes_apart(t, i, j);
}

proof fn lemma_refused(
    t: TreeModel,
    parts: Seq<Seq<char>>,
    depth: int,
    at: int,
    offset: int,
    size: int,
)
    requires
        t.wf(),
        0 <= depth < parts.len(),
        is_named(t, at, parts.take(depth)),
        !t.nodes[at].is_file,
    ensures
        ({
            let r = t.with_path(parts, depth, at, offset, size);
            &&& r == Err::<TreeModel, TreeError>(TreeError::DuplicatePath) <==> names_a_node(
                t,
                parts,
            )
            &&& r == Err::<TreeModel, TreeError>(TreeError::FileAsDirectory) <==> exists|k: int|
                depth < k < parts.len() && #[trigger] file_stands_at(t, parts, k)
            &&& r matches Err(e) ==> e is DuplicatePath || e is FileAsDirectory
        }),
    decreases parts.len() - depth,
{
    let n = parts.len() as int;
    let part = parts[depth];
    let is_last = depth == n - 1;
    assert(parts.take(n) =~= parts);
    lemma_child_named(t, at, part, 0);
    match t.child_named(at, part, 0) {
        None => {
            lemma_missing_is_made(t, parts, depth, at, offset, size);
            assert forall|i: int, k: int| depth < k <= n implies !#[trigger] is_named(
                t,
                i,
                parts.take(k),
            ) by {
                if is_named(t, i, parts.take(k)) {
                    lemma_no_such_child(t, i, parts, k, depth, at);
                }
            }
            if names_a_node(t, parts) {
                let i = choose|i: int| #[trigger] is_named(t, i, parts);
                assert(is_named(t, i, parts.take(n)));
            }
            assert forall|k: int| depth < k < n implies !#[trigger] file_stands_at(
                t,
                parts,
                k,
            ) by {
            }
        },
        Some(c) => {
            let j = choose|j: int|
                0 <= j < t.nodes[at].children.len() && c == #[trigger] t.nodes[at].children[j];
            assert(t.nodes[c].parent == at && 1 <= c < t.nodes.len());
            let next = parts.take(depth + 1);
            assert(t.path(c) == t.path(at).push(t.name(c)));
            assert(is_named(t, c, next)) by {
                assert forall|x: int| 0 <= x < next.len() implies lower(#[trigger] t.path(c)[x])
                    == lower(next[x]) by {
                    if x < depth {
                        assert(t.path(c)[x] == t.path(at)[x]);
                        assert(parts.take(depth)[x] == next[x]);
                    }
                }
            }
            if is_last {
                assert(next =~= parts);
            } else if t.nodes[c].is_file {
                assert(file_stands_at(t, parts, depth + 1));
                if names_a_node(t, parts) {
                    let i = choose|i: int| #[trigger] is_named(t, i, parts);
                    assert(is_named(t, i, parts.take(n)));
                    let below = lemma_beginning_named(t, i, parts, n, depth + 2);
                    lemma_parent_named(t, below, parts, depth + 2);
                    lemma_same_node(t, t.nodes[below].parent, c, next);
                    assert(!t.nodes[t.nodes[below].parent].is_file);
                }
            } else {
                lemma_refused(t, parts, depth + 1, c, offset, size);
                assert(!file_stands_at(t, parts, depth + 1)) by {
                    if file_stands_at(t, parts, depth + 1) {
                        let i = choose|i: int| #[trigger]
                            is_named(t, i, parts.take(depth + 1)) && t.nodes[i].is_file;
                        lemma_same_node(t, i, c, next);
                    }
                }
            }
        },
    }
}

proof fn lemma_no_such_child(
    t: TreeModel,
    i: int,
    parts: Seq<Seq<char>>,
    k: int,
    depth: int,
    at: int,
)
    requires
        t.wf(),
        0 <= depth < k <= parts.len(),
        is_named(t, at, parts.take(depth)),
        t.child_named(at, parts[depth], 0) is None,
    ensures
        !is_named(t, i, parts.take(k)),
{
    if is_named(t, i, parts.take(k)) {
        let j = lemma_beginning_named(t, i, parts, k, depth + 1);
        lemma_parent_named(t, j, parts, depth + 1);
        lemma_same_node(t, t.nodes[j].parent, at, parts.take(depth));
        lemma_child_named(t, at, parts[depth], 0);
        assert(t.nodes[at].children.contains(j));
        let x = choose|x: int| 0 <= x < t.nodes[at].children.len() && t.nodes[at].children[x] == j;
        assert(lower(t.name(t.nodes[at].children[x])) != lower(parts[depth]));
    }
}

/// A file is refused exactly if its path is that of a node that is there, but for case, or if a
/// file stands on the way to it.
pub proof fn taken_paths_are_refused(
    t: TreeModel,
    parts: Seq<Seq<char>>,
    offset: int,
    size: int,
)
    requires
        t.wf(),
        parts.len() > 0,
    ensures
        ({
            let r = t.with_path(parts, 0, 0, offset, size);
            &&& r is Err <==> names_a_node(t, parts) || file_on_the_way(t, parts)
            &&& r == Err::<TreeModel, TreeError>(TreeError::DuplicatePath) <==> names_a_node(
                t,
                parts,
            )
            &&& r == Err::<TreeModel, TreeError>(TreeError::FileAsDirectory) <==> file_on_the_way(
                t,
                parts,
            )
        }),
{
    assert(parts.take(0) =~= Seq::empty());
    assert(is_named(t, 0, parts.take(0)));
    lemma_refused(t, parts, 0, 0, offset, size);
}

/// Where the last of `k` files stands in their tree, and what became of node `i` of the tree
/// without it.
pub proof fn lemma_last_file(files: Seq<(Seq<char>, int)>, k: int, i: int) -> (leaf: int)
    requires
        0 < k <= files.len(),
        tree_of_files(files, k) is Ok,
        0 <= i < tree_of_files(files, k - 1)->Ok_0.nodes.len(),
    ensures
        tree_of_files(files, k)->Ok_0.wf(),
        tree_of_files(files, k)->Ok_0.path(i) == tree_of_files(files, k - 1)->Ok_0.path(i),
        i < leaf < tree_of_files(files, k)->Ok_0.nodes.len(),
        same_but_case(tree_of_files(files, k)->Ok_0.path(leaf), components(files[k - 1].0)),
{
    let t = tree_of_files(files, k - 1)->Ok_0;
    let u = tree_of_files(files, k)->Ok_0;
    let parts = components(files[k - 1].0);
    tree_holds_the_files(files, k - 1);
    assert(parts.take(0) =~= Seq::empty());
    lemma_with_path(t, parts, 0, 0, data_before(files, k - 1), files[k - 1].1);
    lemma_path_kept(t, u, i);
    u.nodes.len() - 1
}

/// A node of the path tree.
pub struct TreeNode {
    pub is_file: bool,
    /// Index into the names; unused for the root.
    pub name_index: usize,
    pub parent: usize,
    pub children: Vec<usize>,
    pub file_offset: u64,
    pub file_size: u64,
}

pub open spec fn indices(v: Seq<usize>) -> Seq<int> {
    v.map_values(|i: usize| i as int)
}

impl TreeNode {
    pub open spec fn model(self) -> NodeModel {
        NodeModel {
            is_file: self.is_file,
            name_index: self.name_index as int,
            parent: self.parent as int,
            children: indices(self.children@),
            offset: self.file_offset as int,
            size: self.file_size as int,
        }
    }
}

pub open spec fn tree_model(nodes: Seq<TreeNode>, names: Seq<String>) -> TreeModel {
    TreeModel { nodes: nodes.map_values(|n: TreeNode| n.model()), names: texts(names) }
}

/// The index of `name` among `names`, where it is put if it is not there. Names are told apart
/// by case.
pub fn intern_name(names: &mut Vec<String>, name: &String) -> (r: usize)
    ensures
        r == interned(texts(old(names)@), name@),
        texts(final(names)@) == with_name(texts(old(names)@), name@),
{
    let ghost t = texts(names@);
    let mut i: usize = 0;
    while i < names.len()
        invariant
            i <= names@.len(),
            t == texts(names@),
            name_position(t, name@, 0) == name_position(t, name@, i as int),
        decreases names@.len() - i,
    {
        assert(t[i as int] == names@[i as int]@);
        if crate::utils::paths::same_text(names[i].as_str(), name.as_str()) {
            return i;
        }
        i = i + 1;
    }
    names.push(name.clone());
    assert(texts(names@) =~= t.push(name@));
    i
}

fn find_child(nodes: &Vec<TreeNode>, names: &Vec<String>, at: usize, part: &String) -> (r: Option<
    usize,
>)
    requires
        tree_model(nodes@, names@).wf(),
        at < nodes@.len(),
    ensures
        match r {
            Some(c) => c < nodes@.len() && tree_model(nodes@, names@).child_named(
                at as int,
                part@,
                0,
            ) == Some(c as int),
            None => tree_model(nodes@, names@).child_named(at as int, part@, 0) is None,
        },
{
    let ghost t = tree_model(nodes@, names@);
    assert(t.nodes[at as int] == nodes@[at as int].model());
    let wanted = lower_chars(part.as_str());
    let mut k: usize = 0;
    while k < nodes[at].children.len()
        invariant
            at < nodes@.len(),
            k <= nodes@[at as int].children@.len(),
            t == tree_model(nodes@, names@),
            t.wf(),
            t.nodes[at as int] == nodes@[at as int].model(),
            wanted@ == lower(part@),
            t.child_named(at as int, part@, 0) == t.child_named(at as int, part@, k as int),
        decreases nodes@[at as int].children@.len() - k,
    {
        let c: usize = nodes[at].children[k];
        proof {
            assert(t.nodes[at as int].children[k as int] == c);
            assert(t.nodes[c as int] == nodes@[c as int].model());
            assert(0 <= t.nodes[c as int].name_index < t.names.len());
            assert(t.name(c as int) == names@[nodes@[c as int].name_index as int]@);
        }
        let have = lower_chars(names[nodes[c].name_index].as_str());
        if same_chars(&have, &wanted) {
            return Some(c);
        }
        k = k + 1;
    }
    None
}

/// Puts the file at `path` in the tree. If it cannot be, the tree stays as it is.
pub fn insert_path(
    nodes: &mut Vec<TreeNode>,
    names: &mut Vec<String>,
    path: &str,
    size: u64,
    running_offset: &mut u64,
) -> (r: Result<(), TreeError>)
    requires
        tree_model(old(nodes)@, old(names)@).wf(),
    ensures
        ({
            let t = tree_model(old(nodes)@, old(names)@);
            let parts = components(path@);
            let u = t.with_path(parts, 0, 0, *old(running_offset) as int, size as int);
            match r {
                Ok(_) => {
                    &&& parts.len() > 0
                    &&& u == Ok::<TreeModel, TreeError>(tree_model(final(nodes)@, final(names)@))
                    &&& tree_model(final(nodes)@, final(names)@).wf()
                    &&& *final(running_offset) == *old(running_offset) + size
                },
                Err(TreeError::EmptyPath) => parts.len() == 0,
                Err(TreeError::TooLarge) => parts.len() > 0 && u is Ok && *old(running_offset)
                    + size > u64::MAX,
                Err(e) => parts.len() > 0 && u == Err::<TreeModel, TreeError>(e),
            }
        }),
        r is Err ==> unchanged(old(nodes)@, final(nodes)@, old(names)@, final(names)@)
            && *final(running_offset) == *old(running_offset),
        ({
            let t = tree_model(old(nodes)@, old(names)@);
            let parts = components(path@);
            let taken = names_a_node(t, parts);
            let blocked = file_on_the_way(t, parts);
            &&& r == Err::<(), TreeError>(TreeError::EmptyPath) <==> parts.len() == 0
            &&& r == Err::<(), TreeError>(TreeError::DuplicatePath) <==> parts.len() > 0 && taken
            &&& r == Err::<(), TreeError>(TreeError::FileAsDirectory) <==> parts.len() > 0
                && blocked
            &&& r == Err::<(), TreeError>(TreeError::TooLarge) <==> parts.len() > 0 && !taken
                && !blocked && *old(running_offset) + size > u64::MAX
        }),
{
    let parts = split_path(path);
    let ghost ps = components(path@);
    assert(ps.len() == parts@.len());
    if parts.len() == 0 {
        return Err(TreeError::EmptyPath);
    }
    let ghost t0 = tree_model(nodes@, names@);
    let ghost off = *running_offset as int;
    proof {
        taken_paths_are_refused(t0, ps, off, size as int);
    }
    let offset: u64 = *running_offset;
    let ghost goal = t0.with_path(ps, 0, 0, off, size as int);
    let mut at: usize = 0;
    let mut depth: usize = 0;
    let mut made: bool = false;
    while depth < parts.len()
        invariant
            depth <= parts@.len(),
            texts(parts@) == ps,
            ps == components(path@),
            ps.len() == parts@.len(),
            offset == off,
            *running_offset == offset,
            offset == *old(running_offset),
            made ==> offset + size <= u64::MAX,
            made || (nodes@ == old(nodes)@ && names@ == old(names)@),
            depth == parts@.len() ==> made,
            t0 == tree_model(old(nodes)@, old(names)@),
            goal == t0.with_path(ps, 0, 0, off, size as int),
            goal == Err::<TreeModel, TreeError>(TreeError::DuplicatePath) <==> names_a_node(
                t0,
                ps,
            ),
            goal == Err::<TreeModel, TreeError>(TreeError::FileAsDirectory) <==> file_on_the_way(
                t0,
                ps,
            ),
            tree_model(nodes@, names@).wf(),
            at < nodes@.len(),
            depth < parts@.len() ==> !nodes@[at as int].is_file,
            made ==> nodes@[at as int].children@.len() == 0,
            goal == tree_model(nodes@, names@).with_path(
                ps,
                depth as int,
                at as int,
                off,
                size as int,
            ),
        decreases parts@.len() - depth,
    {
        let ghost t = tree_model(nodes@, names@);
        let is_last = depth == parts.len() - 1;
        assert(texts(parts@)[depth as int] == parts@[depth as int]@);
        assert(t.nodes[at as int] == nodes@[at as int].model());
        match find_child(nodes, names, at, &parts[depth]) {
            Some(c) => {
                proof {
                    assert(!made) by {
                        if made {
                            assert(t.nodes[at as int].children.len() == 0);
                        }
                    }
                    assert(t.nodes[c as int] == nodes@[c as int].model());
                }
                if is_last {
                    return Err(TreeError::DuplicatePath);
                }
                if nodes[c].is_file {
                    return Err(TreeError::FileAsDirectory);
                }
                at = c;
            },
            None => {
                if !made && size > 0xFFFF_FFFF_FFFF_FFFF - offset {
                    proof {
                        lemma_missing_is_made(
                            t,
                            ps,
                            depth as int,
                            at as int,
                            off,
                            size as int,
                        );
                    }
                    return Err(TreeError::TooLarge);
                }
                let name_index: usize = intern_name(names, &parts[depth]);
                let new: usize = nodes.len();
                let ghost before = nodes@;
                let node = TreeNode {
                    is_file: is_last,
                    name_index,
                    parent: at,
                    children: Vec::new(),
                    file_offset: if is_last {
                        offset
                    } else {
                        0
                    },
                    file_size: if is_last {
                        size
                    } else {
                        0
                    },
                };
                nodes.push(node);
                nodes[at].children.push(new);
                made = true;
                proof {
                    let u = t.with_child(at as int, ps[depth as int], is_last, off, size as int);
                    lemma_with_child(t, at as int, ps[depth as int], is_last, off, size as int);
                    let m = tree_model(nodes@, names@);
                    assert(node.model().children =~= Seq::empty());
                    assert forall|i: int| 0 <= i < m.nodes.len() implies m.nodes[i]
                        == u.nodes[i] by {
                        if i == at {
                            assert(indices(nodes@[at as int].children@) =~= indices(
                                before[at as int].children@,
                            ).push(new as int));
                        } else if i < new {
                            assert(m.nodes[i] == before[i].model());
                        }
                    }
                    assert(m.nodes =~= u.nodes);
                    assert(m.names =~= u.names);
                    assert(m == u);
                }
                at = new;
            },
        }
        depth = depth + 1;
    }
    *running_offset = offset + size;
    Ok(())
}

/// Nodes and names are what they were.
pub open spec fn unchanged(
    nodes0: Seq<TreeNode>,
    nodes1: Seq<TreeNode>,
    names0: Seq<String>,
    names1: Seq<String>,
) -> bool {
    nodes0 == nodes1 && names0 == names1
}

/// No two of these are the same.
pub open spec fn all_differ(names: Seq<Seq<char>>) -> bool {
    forall|i: int, j: int|
        0 <= i < j < names.len() ==> #[trigger] names[i] != #[trigger] names[j]
}

/// A name is kept once, however many files and directories have it.
pub proof fn no_name_is_kept_twice(files: Seq<(Seq<char>, int)>, k: int)
    requires
        0 <= k <= files.len(),
    ensures
        tree_of_files(files, k) matches Ok(t) ==> all_differ(t.names),
    decreases k,
{
    if k > 0 {
        no_name_is_kept_twice(files, k - 1);
        if let Ok(t) = tree_of_files(files, k - 1) {
            let parts = components(files[k - 1].0);
            lemma_names_differ(t, parts, 0, 0, data_before(files, k - 1), files[k - 1].1);
        }
    }
}

proof fn lemma_names_differ(
    t: TreeModel,
    parts: Seq<Seq<char>>,
    depth: int,
    at: int,
    offset: int,
    size: int,
)
    requires
        0 <= depth,
        all_differ(t.names),
    ensures
        t.with_path(parts, depth, at, offset, size) matches Ok(u) ==> all_differ(u.names),
    decreases parts.len() - depth,
{
    if depth < parts.len() {
        let is_last = depth == parts.len() - 1;
        match t.child_named(at, parts[depth], 0) {
            Some(c) => if !is_last && !t.nodes[c].is_file {
                lemma_names_differ(t, parts, depth + 1, c, offset, size);
            },
            None => {
                let u = t.with_child(at, parts[depth], is_last, offset, size);
                if name_position(t.names, parts[depth], 0) is None {
                    lemma_not_among(t.names, parts[depth], 0);
                }
                assert(all_differ(u.names));
                lemma_names_differ(u, parts, depth + 1, t.nodes.len() as int, offset, size);
            },
        }
    }
}

proof fn lemma_not_among(names: Seq<Seq<char>>, name: Seq<char>, k: int)
    requires
        0 <= k,
        name_position(names, name, k) is None,
    ensures
        forall|i: int| k <= i < names.len() ==> #[trigger] names[i] != name,
    decreases names.len() - k,
{
    if k < names.len() {
        lemma_not_among(names, name, k + 1);
    }
}

/// A file is added to a tree under the data of those before it. A path without a component is
/// refused, and what was refused stays so.
pub proof fn files_are_added_in_order(files: Seq<(Seq<char>, int)>, k: int)
    requires
        0 <= k < files.len(),
    ensures
        tree_of_files(files, 0) is Ok && tree_of_files(files, 0)->Ok_0.nodes.len() == 1,
        tree_of_files(files, k) is Err ==> tree_of_files(files, k + 1) == tree_of_files(files, k),
        tree_of_files(files, k) is Ok ==> {
            &&& tree_of_files(files, k + 1) == Err::<TreeModel, TreeError>(TreeError::EmptyPath)
                <==> components(files[k].0).len() == 0
            &&& components(files[k].0).len() > 0 ==> tree_of_files(files, k + 1)
                == tree_of_files(files, k)->Ok_0.with_path(
                components(files[k].0),
                0,
                0,
                data_before(files, k),
                files[k].1,
            )
        },
{
    if let Ok(t) = tree_of_files(files, k) {
        if components(files[k].0).len() > 0 {
            tree_holds_the_files(files, k);
            taken_paths_are_refused(
                t,
                components(files[k].0),
                data_before(files, k),
                files[k].1,
            );
        }
    }
}

} // verus!
