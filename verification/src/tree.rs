use vstd::prelude::*;
use crate::iso::{iso_directory, iso_directory_node, iso_file, iso_file_node};
use hadris_iso::write::File;
use crate::state::{entries_view, FileEntry, FileEntryView};
use crate::text::{
    chars_before, chars_less, directory_of, directory_part, lemma_chars_less_irreflexive,
    lemma_chars_less_total, lemma_chars_less_transitive, split_components, split_slash,
};

verus! {

/// A node of the directory tree that is written into the image: a file,
/// with its name in the image and the index of its contents, or a
/// directory with its children.
#[derive(Debug)]
pub enum IsoNode {
    File { name: String, source: usize },
    Directory { name: String, children: Vec<IsoNode> },
}

/// The mathematical value of an [`IsoNode`].
pub enum TreeNode {
    File { name: Seq<char>, source: nat },
    Directory { name: Seq<char>, children: Seq<TreeNode> },
}

/// The value of a sequence of nodes, node by node.
pub open spec fn tree_view(nodes: Seq<IsoNode>) -> Seq<TreeNode>
    decreases nodes,
{
    if nodes.len() == 0 {
        seq![]
    } else {
        let last = nodes[nodes.len() - 1];
        tree_view(nodes.subrange(0, nodes.len() - 1)).push(
            match last {
                IsoNode::File { name, source } => TreeNode::File { name: name@, source: source as nat },
                IsoNode::Directory { name, children } => TreeNode::Directory {
                    name: name@,
                    children: tree_view(children@),
                },
            },
        )
    }
}

/// The value of one node.
pub open spec fn node_view(node: IsoNode) -> TreeNode {
    match node {
        IsoNode::File { name, source } => TreeNode::File { name: name@, source: source as nat },
        IsoNode::Directory { name, children } => TreeNode::Directory {
            name: name@,
            children: tree_view(children@),
        },
    }
}

pub proof fn lemma_tree_view(nodes: Seq<IsoNode>)
    ensures
        tree_view(nodes).len() == nodes.len(),
        forall|i: int| 0 <= i < nodes.len() ==> #[trigger] tree_view(nodes)[i] == node_view(nodes[i]),
    decreases nodes.len(),
{
    if nodes.len() > 0 {
        lemma_tree_view(nodes.subrange(0, nodes.len() - 1));
    }
}

pub proof fn lemma_tree_view_ext(a: Seq<IsoNode>, b: Seq<IsoNode>)
    requires
        a.len() == b.len(),
        forall|i: int| 0 <= i < a.len() ==> node_view(#[trigger] a[i]) == node_view(b[i]),
    ensures
        tree_view(a) == tree_view(b),
{
    lemma_tree_view(a);
    lemma_tree_view(b);
    assert(tree_view(a) =~= tree_view(b));
}

impl IsoNode {
    /// A copy of the node and everything below it.
    pub fn duplicate(&self) -> (r: IsoNode)
        ensures
            node_view(r) == node_view(*self),
        decreases self,
    {
        match self {
            IsoNode::File { name, source } => IsoNode::File { name: name.clone(), source: *source },
            IsoNode::Directory { name, children } => {
                let mut copies: Vec<IsoNode> = Vec::new();
                let mut i: usize = 0;
                while i < children.len()
                    invariant
                        i <= children@.len(),
                        *self is Directory,
                        self->children == *children,
                        copies@.len() == i,
                        forall|j: int| 0 <= j < i ==> node_view(#[trigger] copies@[j]) == node_view(children@[j]),
                    decreases children@.len() - i,
                {
                    proof {
                        vstd::std_specs::vec::axiom_vec_index_decreases(*children, i as int);
                        assert(decreases_to!(*self => self->children));
                        assert(decreases_to!(*self => children@[i as int]));
                    }
                    let c = children[i].duplicate();
                    copies.push(c);
                    i = i + 1;
                }
                proof { lemma_tree_view_ext(copies@, children@); }
                IsoNode::Directory { name: name.clone(), children: copies }
            },
        }
    }
}

/// Whether a node is a directory with the given name.
pub open spec fn is_directory_named(node: TreeNode, name: Seq<char>) -> bool {
    node matches TreeNode::Directory { name: n, .. } && n == name
}

/// The index of the first directory named `name`, or -1 when there is none.
pub open spec fn first_directory(nodes: Seq<TreeNode>, name: Seq<char>) -> int
    decreases nodes.len(),
{
    if nodes.len() == 0 {
        -1
    } else {
        let k = first_directory(nodes.drop_last(), name);
        if k >= 0 {
            k
        } else if is_directory_named(nodes.last(), name) {
            nodes.len() - 1
        } else {
            -1
        }
    }
}

pub proof fn lemma_first_directory(nodes: Seq<TreeNode>, name: Seq<char>)
    ensures
        -1 <= first_directory(nodes, name) < nodes.len(),
        first_directory(nodes, name) >= 0 ==> is_directory_named(nodes[first_directory(nodes, name)], name),
        forall|j: int|
            0 <= j < nodes.len() && (first_directory(nodes, name) == -1 || j < first_directory(nodes, name))
                ==> !is_directory_named(#[trigger] nodes[j], name),
    decreases nodes.len(),
{
    if nodes.len() > 0 {
        lemma_first_directory(nodes.drop_last(), name);
        assert forall|j: int| 0 <= j < nodes.len() - 1 implies nodes.drop_last()[j] == nodes[j] by {}
    }
}

/// The children of a directory node (none for a file).
pub open spec fn children_of(node: TreeNode) -> Seq<TreeNode> {
    match node {
        TreeNode::Directory { children, .. } => children,
        TreeNode::File { .. } => seq![],
    }
}

/// The tree after placing `files` in the directory reached from `root` by
/// the path components `parts`: each component goes into the first directory
/// of that name, which is appended when there is none, and the files are
/// appended at the end of the path.
pub open spec fn nested_insert(root: Seq<TreeNode>, parts: Seq<Seq<char>>, files: Seq<TreeNode>) -> Seq<TreeNode>
    decreases parts.len(),
{
    if parts.len() == 0 {
        root + files
    } else {
        let k = first_directory(root, parts[0]);
        if k >= 0 {
            root.update(
                k,
                TreeNode::Directory {
                    name: parts[0],
                    children: nested_insert(children_of(root[k]), parts.drop_first(), files),
                },
            )
        } else {
            root.push(
                TreeNode::Directory {
                    name: parts[0],
                    children: nested_insert(seq![], parts.drop_first(), files),
                },
            )
        }
    }
}

/// The values of a sequence of strings.
pub open spec fn strings_view(s: Seq<String>) -> Seq<Seq<char>> {
    s.map_values(|p: String| p@)
}

/// The index of the first directory among `nodes` named `name`.
pub fn find_directory(nodes: &Vec<IsoNode>, name: &String) -> (r: Option<usize>)
    ensures
        match r {
            Some(i) => i == first_directory(tree_view(nodes@), name@),
            None => first_directory(tree_view(nodes@), name@) == -1,
        },
{
    let ghost view = tree_view(nodes@);
    proof { lemma_tree_view(nodes@); }
    let mut i: usize = 0;
    while i < nodes.len()
        invariant
            i <= nodes@.len(),
            view == tree_view(nodes@),
            view.len() == nodes@.len(),
            forall|j: int| 0 <= j < nodes@.len() ==> #[trigger] view[j] == node_view(nodes@[j]),
            first_directory(view.take(i as int), name@) == -1,
        decreases nodes@.len() - i,
    {
        assert(view.take(i + 1).drop_last() =~= view.take(i as int));
        let node = &nodes[i];
        assert(*node == nodes@[i as int]);
        let found = match node {
            IsoNode::Directory { name: n, .. } => {
                let same = *n == *name;
                assert(same == (n@ == name@));
                same
            },
            IsoNode::File { .. } => false,
        };
        assert(view[i as int] == node_view(nodes@[i as int]));
        assert(found == is_directory_named(view[i as int], name@));
        assert(view.take(i + 1).last() == view[i as int]);
        if found {
            proof {
                lemma_first_directory(view, name@);
                lemma_first_directory(view.take(i as int), name@);
                let k = first_directory(view, name@);
                assert(is_directory_named(view[i as int], name@));
                if k >= 0 && k < i {
                    assert(view.take(i as int)[k] == view[k]);
                }
            }
            return Some(i);
        }
        i = i + 1;
    }
    proof { assert(view.take(i as int) =~= view); }
    None
}

/// Places `files` in the directory reached from `root` by the path
/// components `parts`, creating the directories that are missing.
pub fn insert_nested(root: &mut Vec<IsoNode>, parts: &[String], files: &[IsoNode])
    ensures
        tree_view(final(root)@) == nested_insert(tree_view(old(root)@), strings_view(parts@), tree_view(files@)),
    decreases parts@.len(),
{
    proof {
        lemma_tree_view(old(root)@);
        lemma_tree_view(files@);
    }
    if parts.len() == 0 {
        let ghost start = root@;
        let mut i: usize = 0;
        while i < files.len()
            invariant
                i <= files@.len(),
                root@.len() == start.len() + i,
                forall|j: int| 0 <= j < start.len() ==> #[trigger] root@[j] == start[j],
                forall|j: int| 0 <= j < i ==> node_view(#[trigger] root@[start.len() + j]) == node_view(files@[j]),
            decreases files@.len() - i,
        {
            let c = files[i].duplicate();
            root.push(c);
            i = i + 1;
        }
        proof {
            lemma_tree_view(root@);
            lemma_tree_view(start);
            assert(strings_view(parts@).len() == 0);
            assert forall|j: int| 0 <= j < root@.len() implies tree_view(root@)[j]
                == (tree_view(start) + tree_view(files@))[j] by {
                if j >= start.len() {
                    assert(node_view(root@[start.len() + (j - start.len())]) == node_view(files@[j - start.len()]));
                }
            }
            assert(tree_view(root@) =~= tree_view(start) + tree_view(files@));
        }
        return;
    }
    let (first, rest) = parts.split_at(1);
    let dir_name = &first[0];
    proof {
        assert(rest@ =~= parts@.drop_first());
        assert(strings_view(rest@) =~= strings_view(parts@).drop_first());
        assert(strings_view(parts@)[0] == dir_name@);
    }
    let ghost before = tree_view(root@);
    match find_directory(root, dir_name) {
        Some(i) => {
            proof { lemma_first_directory(before, dir_name@); }
            let node = root.remove(i);
            match node {
                IsoNode::Directory { name, children } => {
                    let mut children = children;
                    insert_nested(&mut children, rest, files);
                    root.insert(i, IsoNode::Directory { name, children });
                    proof {
                        lemma_tree_view(root@);
                        assert forall|j: int| 0 <= j < root@.len() implies tree_view(root@)[j]
                            == nested_insert(before, strings_view(parts@), tree_view(files@))[j] by {
                            if j != i {
                                assert(root@[j] == old(root)@[j]);
                            }
                        }
                        assert(tree_view(root@) =~= nested_insert(before, strings_view(parts@), tree_view(files@)));
                    }
                },
                IsoNode::File { .. } => {
                    proof {
                        assert(before[i as int] == node_view(old(root)@[i as int]));
                    }
                    assert(false);
                },
            }
        },
        None => {
            let mut children: Vec<IsoNode> = Vec::new();
            insert_nested(&mut children, rest, files);
            proof { assert(tree_view(Seq::<IsoNode>::empty()) =~= Seq::<TreeNode>::empty()); }
            root.push(IsoNode::Directory { name: dir_name.clone(), children });
            proof {
                lemma_tree_view(root@);
                assert(tree_view(root@) =~= nested_insert(before, strings_view(parts@), tree_view(files@)));
            }
        },
    }
}

/// The file node for entry `i`: named as the entry, with contents index `i`.
pub open spec fn leaf_of(es: Seq<FileEntryView>, i: int) -> TreeNode {
    TreeNode::File { name: es[i].name, source: i as nat }
}

/// The file nodes, in order, of the entries whose image path has no
/// directory part.
pub open spec fn root_leaves(es: Seq<FileEntryView>) -> Seq<TreeNode>
    decreases es.len(),
{
    if es.len() == 0 {
        seq![]
    } else {
        let prev = root_leaves(es.drop_last());
        if directory_of(es.last().iso_path) is None {
            prev.push(leaf_of(es, es.len() - 1))
        } else {
            prev
        }
    }
}

/// The file nodes, in order, of the entries whose directory part is `d`.
pub open spec fn dir_leaves(es: Seq<FileEntryView>, d: Seq<char>) -> Seq<TreeNode>
    decreases es.len(),
{
    if es.len() == 0 {
        seq![]
    } else {
        let prev = dir_leaves(es.drop_last(), d);
        if directory_of(es.last().iso_path) == Some(d) {
            prev.push(leaf_of(es, es.len() - 1))
        } else {
            prev
        }
    }
}

/// How many keys at the front of `ks` come before `d`.
pub open spec fn key_position(ks: Seq<Seq<char>>, d: Seq<char>) -> int
    decreases ks.len(),
{
    if ks.len() == 0 || !chars_less(ks[0], d) {
        0
    } else {
        1 + key_position(ks.drop_first(), d)
    }
}

/// `ks` with `d` added at its place, unless it is there already.
pub open spec fn insert_key(ks: Seq<Seq<char>>, d: Seq<char>) -> Seq<Seq<char>> {
    let j = key_position(ks, d);
    if j < ks.len() && ks[j] == d {
        ks
    } else {
        ks.insert(j, d)
    }
}

/// The directory parts of the entries, each once, in ascending order.
pub open spec fn dir_keys(es: Seq<FileEntryView>) -> Seq<Seq<char>>
    decreases es.len(),
{
    if es.len() == 0 {
        seq![]
    } else {
        let ks = dir_keys(es.drop_last());
        match directory_of(es.last().iso_path) {
            Some(d) => insert_key(ks, d),
            None => ks,
        }
    }
}

/// Keys in strictly ascending order.
pub open spec fn keys_sorted(ks: Seq<Seq<char>>) -> bool {
    forall|i: int, j: int| 0 <= i < j < ks.len() ==> chars_less(#[trigger] ks[i], #[trigger] ks[j])
}

/// The tree after inserting, key by key, the files of each directory.
pub open spec fn assemble(root: Seq<TreeNode>, es: Seq<FileEntryView>, keys: Seq<Seq<char>>) -> Seq<TreeNode>
    decreases keys.len(),
{
    if keys.len() == 0 {
        root
    } else {
        nested_insert(assemble(root, es, keys.drop_last()), split_slash(keys.last()), dir_leaves(es, keys.last()))
    }
}

/// The directory tree of the image: the files without a directory at the
/// top, then the files of every directory, directory by directory in
/// ascending order, placed at the path given by the slash-separated
/// components of the directory.
pub open spec fn tree_of(es: Seq<FileEntryView>) -> Seq<TreeNode> {
    assemble(root_leaves(es), es, dir_keys(es))
}

pub(crate) proof fn lemma_key_position(ks: Seq<Seq<char>>, d: Seq<char>)
    ensures
        0 <= key_position(ks, d) <= ks.len(),
        forall|i: int| 0 <= i < key_position(ks, d) ==> chars_less(#[trigger] ks[i], d),
        key_position(ks, d) < ks.len() ==> !chars_less(ks[key_position(ks, d)], d),
    decreases ks.len(),
{
    if ks.len() > 0 && chars_less(ks[0], d) {
        lemma_key_position(ks.drop_first(), d);
        assert forall|i: int| 0 <= i < key_position(ks, d) implies chars_less(#[trigger] ks[i], d) by {
            if i > 0 {
                assert(ks[i] == ks.drop_first()[i - 1]);
            }
        }
    }
}

pub(crate) proof fn lemma_insert_key(ks: Seq<Seq<char>>, d: Seq<char>)
    requires
        keys_sorted(ks),
    ensures
        keys_sorted(insert_key(ks, d)),
        insert_key(ks, d).contains(d),
        forall|k: Seq<char>| ks.contains(k) ==> #[trigger] insert_key(ks, d).contains(k),
        ks.contains(d) ==> key_position(ks, d) < ks.len() && ks[key_position(ks, d)] == d,
{
    lemma_key_position(ks, d);
    let j = key_position(ks, d);
    if ks.contains(d) {
        let m = choose|m: int| 0 <= m < ks.len() && ks[m] == d;
        if m < j {
            lemma_chars_less_irreflexive(d);
        } else if m > j {
            assert(chars_less(ks[j], ks[m]));
        }
    }
    if j < ks.len() && ks[j] == d {
        assert(insert_key(ks, d)[j] == d);
    } else {
        let r = ks.insert(j, d);
        assert(r[j] == d);
        if j < ks.len() {
            lemma_chars_less_total(ks[j], d);
        }
        assert forall|a: int, b: int| 0 <= a < b < r.len() implies chars_less(#[trigger] r[a], #[trigger] r[b]) by {
            if b < j {
                assert(r[a] == ks[a] && r[b] == ks[b]);
            } else if b == j {
                assert(r[a] == ks[a]);
            } else if a == j {
                assert(r[b] == ks[b - 1]);
                if b - 1 > j {
                    assert(chars_less(ks[j], ks[b - 1]));
                    lemma_chars_less_transitive(d, ks[j], ks[b - 1]);
                }
            } else if a < j {
                assert(r[a] == ks[a] && r[b] == ks[b - 1]);
            } else {
                assert(r[a] == ks[a - 1] && r[b] == ks[b - 1]);
            }
        }
        assert forall|k: Seq<char>| ks.contains(k) implies #[trigger] r.contains(k) by {
            let m = choose|m: int| 0 <= m < ks.len() && ks[m] == k;
            if m < j {
                assert(r[m] == k);
            } else {
                assert(r[m + 1] == k);
            }
        }
    }
}

pub(crate) proof fn lemma_dir_keys(es: Seq<FileEntryView>)
    ensures
        keys_sorted(dir_keys(es)),
        forall|d: Seq<char>| dir_leaves(es, d).len() > 0 ==> #[trigger] dir_keys(es).contains(d),
    decreases es.len(),
{
    if es.len() > 0 {
        let prev = es.drop_last();
        lemma_dir_keys(prev);
        match directory_of(es.last().iso_path) {
            Some(d) => {
                lemma_insert_key(dir_keys(prev), d);
            },
            None => {},
        }
    }
}

/// The files of one directory, gathered while walking the entries.
struct DirGroup {
    key: Vec<char>,
    files: Vec<IsoNode>,
}

spec fn groups_agree(groups: Seq<DirGroup>, es: Seq<FileEntryView>) -> bool {
    &&& groups.len() == dir_keys(es).len()
    &&& forall|g: int| 0 <= g < groups.len() ==> (#[trigger] groups[g]).key@ == dir_keys(es)[g]
    &&& forall|g: int| 0 <= g < groups.len() ==> tree_view((#[trigger] groups[g]).files@) == dir_leaves(es, groups[g].key@)
}

fn same_chars(a: &Vec<char>, b: &Vec<char>) -> (r: bool)
    ensures
        r == (a@ == b@),
{
    if a.len() != b.len() {
        return false;
    }
    let mut i: usize = 0;
    while i < a.len()
        invariant
            i <= a@.len() == b@.len(),
            forall|j: int| 0 <= j < i ==> a@[j] == b@[j],
        decreases a@.len() - i,
    {
        if a[i] != b[i] {
            return false;
        }
        i = i + 1;
    }
    proof { assert(a@ =~= b@); }
    true
}

/// Adds the file node of entry `i` to the group of directory `d`.
fn add_to_group(groups: &mut Vec<DirGroup>, d: Vec<char>, leaf: IsoNode, Ghost(es): Ghost<Seq<FileEntryView>>, Ghost(i): Ghost<int>)
    requires
        0 <= i < es.len(),
        directory_of(es[i].iso_path) == Some(d@),
        node_view(leaf) == leaf_of(es, i),
        groups_agree(old(groups)@, es.take(i)),
    ensures
        groups_agree(final(groups)@, es.take(i + 1)),
{
    let ghost before = es.take(i);
    let ghost after = es.take(i + 1);
    let ghost ks = dir_keys(before);
    proof {
        assert(after.drop_last() =~= before);
        assert(after.last() == es[i]);
        lemma_dir_keys(before);
        lemma_key_position(ks, d@);
        lemma_insert_key(ks, d@);
        assert(leaf_of(after, i) == leaf_of(es, i));
        assert(dir_keys(after) == insert_key(ks, d@));
        assert forall|k: Seq<char>| #[trigger] dir_leaves(after, k) == (if k == d@ {
            dir_leaves(before, k).push(leaf_of(es, i))
        } else {
            dir_leaves(before, k)
        }) by {}
    }
    let mut j: usize = 0;
    while j < groups.len() && chars_before(&groups[j].key, &d)
        invariant
            j <= groups@.len() == ks.len(),
            groups_agree(groups@, before),
            ks == dir_keys(before),
            forall|m: int| 0 <= m < j ==> chars_less(#[trigger] ks[m], d@),
            key_position(ks, d@) >= j,
        decreases groups@.len() - j,
    {
        proof {
            assert(groups@[j as int].key@ == ks[j as int]);
            lemma_key_position(ks, d@);
            if key_position(ks, d@) == j {
                assert(!chars_less(ks[j as int], d@));
            }
        }
        j = j + 1;
    }
    proof {
        lemma_key_position(ks, d@);
        if j < groups@.len() {
            assert(groups@[j as int].key@ == ks[j as int]);
            assert(!chars_less(ks[j as int], d@));
        }
        if key_position(ks, d@) > j {
            assert(chars_less(ks[j as int], d@));
        }
        assert(key_position(ks, d@) == j);
    }
    let found = j < groups.len() && same_chars(&groups[j].key, &d);
    if found {
        let group = groups.remove(j);
        let DirGroup { key, files } = group;
        let mut files = files;
        let ghost old_files = files@;
        files.push(leaf);
        proof {
            lemma_tree_view(old_files);
            lemma_tree_view(files@);
            assert(tree_view(files@) =~= tree_view(old_files).push(leaf_of(es, i)));
        }
        groups.insert(j, DirGroup { key, files });
        proof {
            assert(dir_keys(after) == ks);
            assert forall|g: int| 0 <= g < groups@.len() implies tree_view((#[trigger] groups@[g]).files@)
                == dir_leaves(after, groups@[g].key@) by {
                if g != j {
                    assert(groups@[g] == old(groups)@[g]);
                    assert(old(groups)@[g].key@ == ks[g]);
                    lemma_chars_less_total(ks[g], d@);
                    assert(ks[g] != d@);
                }
            }
        }
    } else {
        let mut files: Vec<IsoNode> = Vec::new();
        files.push(leaf);
        proof {
            if dir_leaves(before, d@).len() > 0 {
                assert(ks.contains(d@));
            }
            lemma_tree_view(files@);
            assert(tree_view(files@) =~= seq![leaf_of(es, i)]);
            assert(dir_leaves(after, d@) =~= seq![leaf_of(es, i)]);
        }
        groups.insert(j, DirGroup { key: d, files });
        proof {
            let nk = dir_keys(after);
            assert(nk == ks.insert(j as int, d@));
            assert forall|g: int| 0 <= g < groups@.len() implies (#[trigger] groups@[g]).key@ == nk[g]
                && tree_view(groups@[g].files@) == dir_leaves(after, groups@[g].key@) by {
                if g < j {
                    assert(groups@[g] == old(groups)@[g]);
                    assert(ks[g] != d@) by { lemma_chars_less_irreflexive(d@); }
                } else if g > j {
                    assert(groups@[g] == old(groups)@[g - 1]);
                    assert(old(groups)@[g - 1].key@ == ks[g - 1]);
                    if ks[g - 1] == d@ {
                        assert(ks.contains(d@));
                    }
                }
            }
        }
    }
}

/// Builds the directory tree of the image from the entries: a file whose
/// image path has no directory part goes at the top; the others are grouped
/// by directory, and each group is placed at its path, in ascending order of
/// the directories.
pub fn build_tree(files: &[FileEntry]) -> (r: Vec<IsoNode>)
    ensures
        tree_view(r@) == tree_of(entries_view(files@)),
{
    let ghost es = entries_view(files@);
    let mut root: Vec<IsoNode> = Vec::new();
    let mut groups: Vec<DirGroup> = Vec::new();
    let mut i: usize = 0;
    proof {
        assert(es.take(0) =~= Seq::<FileEntryView>::empty());
        assert(tree_view(root@) =~= Seq::<TreeNode>::empty());
    }
    while i < files.len()
        invariant
            i <= files@.len() == es.len(),
            es == entries_view(files@),
            tree_view(root@) == root_leaves(es.take(i as int)),
            groups_agree(groups@, es.take(i as int)),
        decreases files@.len() - i,
    {
        let entry = &files[i];
        let leaf = IsoNode::File { name: entry.name.clone(), source: i };
        proof {
            assert(es[i as int] == entry@);
            assert(es.take(i + 1).drop_last() =~= es.take(i as int));
            assert(es.take(i + 1).last() == es[i as int]);
            assert(leaf_of(es.take(i + 1), i as int) == leaf_of(es, i as int));
        }
        match directory_part(entry.iso_path.as_str()) {
            None => {
                let ghost old_root = root@;
                root.push(leaf);
                proof {
                    lemma_tree_view(old_root);
                    lemma_tree_view(root@);
                    assert(tree_view(root@) =~= tree_view(old_root).push(leaf_of(es, i as int)));
                    assert forall|g: int| 0 <= g < groups@.len() implies tree_view((#[trigger] groups@[g]).files@)
                        == dir_leaves(es.take(i + 1), groups@[g].key@) by {}
                }
            },
            Some(d) => {
                add_to_group(&mut groups, d, leaf, Ghost(es), Ghost(i as int));
            },
        }
        i = i + 1;
    }
    proof { assert(es.take(i as int) =~= es); }
    let ghost keys = dir_keys(es);
    let ghost start = root_leaves(es);
    let mut g: usize = 0;
    proof { assert(keys.take(0) =~= Seq::<Seq<char>>::empty()); }
    while g < groups.len()
        invariant
            g <= groups@.len() == keys.len(),
            keys == dir_keys(es),
            groups_agree(groups@, es),
            tree_view(root@) == assemble(start, es, keys.take(g as int)),
        decreases groups@.len() - g,
    {
        let group = &groups[g];
        let parts = split_components(&group.key);
        insert_nested(&mut root, parts.as_slice(), group.files.as_slice());
        proof {
            assert(group.key@ == keys[g as int]);
            assert(keys.take(g + 1).drop_last() =~= keys.take(g as int));
            assert(keys.take(g + 1).last() == keys[g as int]);
        }
        g = g + 1;
    }
    proof { assert(keys.take(g as int) =~= keys); }
    root
}

/// Every file node below `nodes` points at a contents index below `n`.
pub open spec fn sources_below(nodes: Seq<TreeNode>, n: nat) -> bool
    decreases nodes,
{
    if nodes.len() == 0 {
        true
    } else {
        sources_below(nodes.subrange(0, nodes.len() - 1), n) && match nodes[nodes.len() - 1] {
            TreeNode::File { source, .. } => source < n,
            TreeNode::Directory { children, .. } => sources_below(children, n),
        }
    }
}

/// Every file node in or below `node` points at a contents index below `n`.
pub open spec fn node_sources_below(node: TreeNode, n: nat) -> bool {
    match node {
        TreeNode::File { source, .. } => source < n,
        TreeNode::Directory { children, .. } => sources_below(children, n),
    }
}

pub proof fn lemma_sources_below(nodes: Seq<TreeNode>, n: nat)
    ensures
        sources_below(nodes, n) == forall|i: int| 0 <= i < nodes.len() ==> node_sources_below(#[trigger] nodes[i], n),
    decreases nodes.len(),
{
    if nodes.len() > 0 {
        let prev = nodes.subrange(0, nodes.len() - 1);
        lemma_sources_below(prev, n);
        if sources_below(nodes, n) {
            assert forall|i: int| 0 <= i < nodes.len() implies node_sources_below(#[trigger] nodes[i], n) by {
                if i < nodes.len() - 1 {
                    assert(prev[i] == nodes[i]);
                }
            }
        }
        if forall|i: int| 0 <= i < nodes.len() ==> node_sources_below(#[trigger] nodes[i], n) {
            assert forall|i: int| 0 <= i < prev.len() implies node_sources_below(#[trigger] prev[i], n) by {
                assert(prev[i] == nodes[i]);
            }
            assert(node_sources_below(nodes[nodes.len() - 1], n));
        }
    }
}

proof fn lemma_nested_sources(root: Seq<TreeNode>, parts: Seq<Seq<char>>, files: Seq<TreeNode>, n: nat)
    requires
        sources_below(root, n),
        sources_below(files, n),
    ensures
        sources_below(nested_insert(root, parts, files), n),
    decreases parts.len(),
{
    lemma_sources_below(root, n);
    lemma_sources_below(files, n);
    let r = nested_insert(root, parts, files);
    if parts.len() == 0 {
        assert forall|i: int| 0 <= i < r.len() implies node_sources_below(#[trigger] r[i], n) by {
            if i >= root.len() {
                assert(r[i] == files[i - root.len()]);
            }
        }
    } else {
        let k = first_directory(root, parts[0]);
        lemma_first_directory(root, parts[0]);
        if k >= 0 {
            assert(node_sources_below(root[k], n));
            lemma_nested_sources(children_of(root[k]), parts.drop_first(), files, n);
        } else {
            lemma_sources_below(Seq::<TreeNode>::empty(), n);
            lemma_nested_sources(seq![], parts.drop_first(), files, n);
        }
        assert forall|i: int| 0 <= i < r.len() implies node_sources_below(#[trigger] r[i], n) by {}
    }
    lemma_sources_below(r, n);
}

pub(crate) proof fn lemma_leaves_are_files(es: Seq<FileEntryView>, d: Seq<char>)
    ensures
        forall|i: int| 0 <= i < root_leaves(es).len() ==>
            (#[trigger] root_leaves(es)[i] matches TreeNode::File { source, .. } && source < es.len()),
        forall|i: int| 0 <= i < dir_leaves(es, d).len() ==>
            (#[trigger] dir_leaves(es, d)[i] matches TreeNode::File { source, .. } && source < es.len()),
    decreases es.len(),
{
    if es.len() > 0 {
        lemma_leaves_are_files(es.drop_last(), d);
    }
}

proof fn lemma_leaves_sources(es: Seq<FileEntryView>, d: Seq<char>)
    ensures
        sources_below(root_leaves(es), es.len() as nat),
        sources_below(dir_leaves(es, d), es.len() as nat),
{
    lemma_leaves_are_files(es, d);
    lemma_sources_below(root_leaves(es), es.len() as nat);
    lemma_sources_below(dir_leaves(es, d), es.len() as nat);
}

proof fn lemma_assemble_sources(root: Seq<TreeNode>, es: Seq<FileEntryView>, keys: Seq<Seq<char>>)
    requires
        sources_below(root, es.len() as nat),
    ensures
        sources_below(assemble(root, es, keys), es.len() as nat),
    decreases keys.len(),
{
    if keys.len() > 0 {
        lemma_assemble_sources(root, es, keys.drop_last());
        lemma_leaves_sources(es, keys.last());
        lemma_nested_sources(assemble(root, es, keys.drop_last()), split_slash(keys.last()), dir_leaves(es, keys.last()), es.len() as nat);
    }
}

/// Every file of the tree of the entries points at one of the entries.
pub proof fn lemma_tree_sources(es: Seq<FileEntryView>)
    ensures
        sources_below(tree_of(es), es.len() as nat),
{
    lemma_leaves_sources(es, seq![]);
    lemma_assemble_sources(root_leaves(es), es, dir_keys(es));
}

/// The number of directories in and below `nodes`.
pub open spec fn directory_count(nodes: Seq<TreeNode>) -> nat
    decreases nodes,
{
    if nodes.len() == 0 {
        0
    } else {
        directory_count(nodes.subrange(0, nodes.len() - 1)) + match nodes[nodes.len() - 1] {
            TreeNode::File { .. } => 0,
            TreeNode::Directory { children, .. } => 1 + directory_count(children),
        }
    }
}

/// The number of nodes, files and directories, in and below `nodes`.
pub open spec fn node_count(nodes: Seq<TreeNode>) -> nat
    decreases nodes,
{
    if nodes.len() == 0 {
        0
    } else {
        node_count(nodes.subrange(0, nodes.len() - 1)) + match nodes[nodes.len() - 1] {
            TreeNode::File { .. } => 1,
            TreeNode::Directory { children, .. } => 1 + node_count(children),
        }
    }
}

/// The largest count that [`count_tree`] reports.
pub const COUNT_CAP: u64 = 4294967295;

/// `n`, or [`COUNT_CAP`] when it is larger.
pub open spec fn capped(n: nat) -> nat {
    if n < COUNT_CAP {
        n
    } else {
        COUNT_CAP as nat
    }
}

/// Counts the directories and the nodes in and below `nodes`, each count
/// stopping at [`COUNT_CAP`].
pub fn count_tree(nodes: &Vec<IsoNode>) -> (r: (u64, u64))
    ensures
        r.0 == capped(directory_count(tree_view(nodes@))),
        r.1 == capped(node_count(tree_view(nodes@))),
    decreases nodes,
{
    let ghost view = tree_view(nodes@);
    proof {
        lemma_tree_view(nodes@);
        assert(view.take(0) =~= Seq::<TreeNode>::empty());
    }
    let mut dirs: u64 = 0;
    let mut count: u64 = 0;
    let mut i: usize = 0;
    while i < nodes.len()
        invariant
            i <= nodes@.len() == view.len(),
            view == tree_view(nodes@),
            forall|j: int| 0 <= j < nodes@.len() ==> #[trigger] view[j] == node_view(nodes@[j]),
            dirs == capped(directory_count(view.take(i as int))),
            count == capped(node_count(view.take(i as int))),
        decreases nodes@.len() - i,
    {
        proof {
            assert(view.take(i + 1).subrange(0, i as int) =~= view.take(i as int));
            assert(view.take(i + 1)[i as int] == view[i as int]);
        }
        let node = &nodes[i];
        assert(*node == nodes@[i as int]);
        match node {
            IsoNode::File { .. } => {
                count = if count < COUNT_CAP { count + 1 } else { COUNT_CAP };
            },
            IsoNode::Directory { children, .. } => {
                proof {
                    vstd::std_specs::vec::axiom_vec_index_decreases(*nodes, i as int);
                    assert(decreases_to!(nodes@[i as int] => nodes@[i as int]->children));
                }
                let (d, n) = count_tree(children);
                let d_sum = dirs + 1 + d;
                let n_sum = count + 1 + n;
                dirs = if d_sum < COUNT_CAP { d_sum } else { COUNT_CAP };
                count = if n_sum < COUNT_CAP { n_sum } else { COUNT_CAP };
            },
        }
        i = i + 1;
    }
    proof { assert(view.take(i as int) =~= view); }
    (dirs, count)
}

/// The `hadris_iso` nodes for a tree, file contents taken from `contents`.
pub open spec fn iso_files_of(nodes: Seq<TreeNode>, contents: Seq<Seq<u8>>) -> Seq<File>
    decreases nodes,
{
    if nodes.len() == 0 {
        seq![]
    } else {
        iso_files_of(nodes.subrange(0, nodes.len() - 1), contents).push(
            match nodes[nodes.len() - 1] {
                TreeNode::File { name, source } => iso_file_node(name, contents[source as int]),
                TreeNode::Directory { name, children } => iso_directory_node(name, iso_files_of(children, contents)),
            },
        )
    }
}

/// Node `i` of the `hadris_iso` nodes of a tree is made from node `i` of
/// the tree: a file named as the tree's file, holding the whole of the
/// contents it points at, or a directory of the same name over the nodes of
/// its children.
pub proof fn law_iso_files_nodes(t: Seq<TreeNode>, c: Seq<Seq<u8>>)
    ensures
        iso_files_of(t, c).len() == t.len(),
        forall|i: int| 0 <= i < t.len() ==> (#[trigger] t[i] matches TreeNode::File { name, source }
            ==> iso_files_of(t, c)[i] == iso_file_node(name, c[source as int])),
        forall|i: int| 0 <= i < t.len() ==> (#[trigger] t[i] matches TreeNode::Directory { name, children }
            ==> iso_files_of(t, c)[i] == iso_directory_node(name, iso_files_of(children, c))),
    decreases t.len(),
{
    if t.len() > 0 {
        let prefix = t.subrange(0, t.len() - 1);
        law_iso_files_nodes(prefix, c);
        assert forall|i: int| 0 <= i < t.len() - 1 implies #[trigger] t[i] == prefix[i] by {}
    }
}

/// The values of the contents of the files.
pub open spec fn contents_view(contents: Seq<Vec<u8>>) -> Seq<Seq<u8>> {
    contents.map_values(|c: Vec<u8>| c@)
}

/// Converts a tree into the nodes that `hadris_iso` writes, each file with
/// its contents.
pub fn to_iso_files(nodes: &Vec<IsoNode>, contents: &Vec<Vec<u8>>) -> (r: Vec<File>)
    requires
        sources_below(tree_view(nodes@), contents@.len() as nat),
    ensures
        r@ == iso_files_of(tree_view(nodes@), contents_view(contents@)),
        r@.len() == nodes@.len(),
        forall|i: int| 0 <= i < nodes@.len() ==> (#[trigger] nodes@[i] matches IsoNode::File { name, source }
            ==> r@[i] == iso_file_node(name@, contents@[source as int]@)),
    decreases nodes,
{
    let ghost view = tree_view(nodes@);
    let ghost cv = contents_view(contents@);
    proof {
        lemma_tree_view(nodes@);
        lemma_sources_below(view, contents@.len() as nat);
        assert(view.take(0) =~= Seq::<TreeNode>::empty());
    }
    let mut r: Vec<File> = Vec::new();
    let mut i: usize = 0;
    while i < nodes.len()
        invariant
            i <= nodes@.len() == view.len(),
            view == tree_view(nodes@),
            cv == contents_view(contents@),
            forall|j: int| 0 <= j < nodes@.len() ==> #[trigger] view[j] == node_view(nodes@[j]),
            forall|j: int| 0 <= j < view.len() ==> node_sources_below(#[trigger] view[j], contents@.len() as nat),
            r@ == iso_files_of(view.take(i as int), cv),
        decreases nodes@.len() - i,
    {
        proof {
            assert(view.take(i + 1).subrange(0, i as int) =~= view.take(i as int));
            assert(view.take(i + 1)[i as int] == view[i as int]);
            assert(node_sources_below(view[i as int], contents@.len() as nat));
        }
        let node = &nodes[i];
        assert(*node == nodes@[i as int]);
        let f = match node {
            IsoNode::File { name, source } => {
                let data = contents[*source].clone();
                proof { assert(data@ =~= contents@[*source as int]@); }
                iso_file(name.clone(), data)
            },
            IsoNode::Directory { name, children } => {
                proof {
                    vstd::std_specs::vec::axiom_vec_index_decreases(*nodes, i as int);
                    assert(decreases_to!(nodes@[i as int] => nodes@[i as int]->children));
                }
                let sub = to_iso_files(children, contents);
                iso_directory(name.clone(), sub)
            },
        };
        r.push(f);
        i = i + 1;
    }
    proof {
        assert(view.take(i as int) =~= view);
        law_iso_files_nodes(view, cv);
        assert forall|j: int| 0 <= j < nodes@.len() implies (#[trigger] nodes@[j] matches IsoNode::File { name, source }
            ==> r@[j] == iso_file_node(name@, contents@[source as int]@)) by {
            assert(view[j] == node_view(nodes@[j]));
            if nodes@[j] is File {
                let source = nodes@[j]->File_source;
                assert(node_sources_below(view[j], contents@.len() as nat));
                assert(cv[source as int] == contents@[source as int]@);
            }
        }
    }
    r
}

} // verus!
