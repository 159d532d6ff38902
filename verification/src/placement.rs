//! Where every file lands in the directory tree of the image.

use vstd::prelude::*;
use vstd::multiset::Multiset;
use crate::state::FileEntryView;
use crate::text::{directory_of, lemma_chars_less_irreflexive, split_slash};
use crate::tree::{
    assemble, children_of, dir_keys, dir_leaves, first_directory, is_directory_named, key_position, keys_sorted,
    lemma_dir_keys, lemma_first_directory, lemma_insert_key, lemma_key_position, lemma_leaves_are_files, leaf_of,
    nested_insert, root_leaves, tree_of, TreeNode,
};

verus! {

broadcast use vstd::seq_lib::group_to_multiset_ensures, vstd::multiset::group_multiset_axioms;

/// A file as it lies in a tree: the names of the directories that lead to
/// it, its name, and the index of its contents.
pub struct Placement {
    pub dir: Seq<Seq<char>>,
    pub name: Seq<char>,
    pub source: nat,
}

/// The files of a tree whose top lies in the directory `dir`, in order.
pub open spec fn placed(nodes: Seq<TreeNode>, dir: Seq<Seq<char>>) -> Seq<Placement>
    decreases nodes,
{
    if nodes.len() == 0 {
        seq![]
    } else {
        placed(nodes.subrange(0, nodes.len() - 1), dir) + match nodes[nodes.len() - 1] {
            TreeNode::File { name, source } => seq![Placement { dir, name, source }],
            TreeNode::Directory { name, children } => placed(children, dir.push(name)),
        }
    }
}

/// The files of one node that lies in the directory `dir`.
pub open spec fn node_placed(node: TreeNode, dir: Seq<Seq<char>>) -> Seq<Placement> {
    match node {
        TreeNode::File { name, source } => seq![Placement { dir, name, source }],
        TreeNode::Directory { name, children } => placed(children, dir.push(name)),
    }
}

/// The directory components of the image path of an entry: none for a file
/// at the top, otherwise its directory part split at every slash.
pub open spec fn entry_dir(e: FileEntryView) -> Seq<Seq<char>> {
    match directory_of(e.iso_path) {
        Some(d) => split_slash(d),
        None => seq![],
    }
}

/// Where each entry should land: in the directory of its image path, under
/// its own name, with its own index as contents.
pub open spec fn expected_placements(es: Seq<FileEntryView>) -> Seq<Placement> {
    Seq::new(es.len(), |i: int| Placement { dir: entry_dir(es[i]), name: es[i].name, source: i as nat })
}

proof fn lemma_placed_push(s: Seq<TreeNode>, n: TreeNode, d: Seq<Seq<char>>)
    ensures
        placed(s.push(n), d) == placed(s, d) + node_placed(n, d),
{
    assert(s.push(n).subrange(0, s.len() as int) =~= s);
}

proof fn lemma_placed_concat(a: Seq<TreeNode>, b: Seq<TreeNode>, d: Seq<Seq<char>>)
    ensures
        placed(a + b, d) == placed(a, d) + placed(b, d),
    decreases b.len(),
{
    if b.len() == 0 {
        assert(a + b =~= a);
        assert(placed(b, d) =~= Seq::<Placement>::empty());
        assert(placed(a, d) + placed(b, d) =~= placed(a, d));
    } else {
        let b0 = b.drop_last();
        let x = b.last();
        lemma_placed_concat(a, b0, d);
        assert(a + b =~= (a + b0).push(x));
        assert(b =~= b0.push(x));
        lemma_placed_push(a + b0, x, d);
        lemma_placed_push(b0, x, d);
        assert(placed(a, d) + placed(b0, d) + node_placed(x, d) =~= placed(a, d) + (placed(b0, d) + node_placed(x, d)));
    }
}

proof fn lemma_placed_update(s: Seq<TreeNode>, k: int, n: TreeNode, d: Seq<Seq<char>>)
    requires
        0 <= k < s.len(),
    ensures
        placed(s.update(k, n), d).to_multiset().add(node_placed(s[k], d).to_multiset())
            == placed(s, d).to_multiset().add(node_placed(n, d).to_multiset()),
{
    let pre = s.take(k);
    let post = s.skip(k + 1);
    assert(s =~= pre.push(s[k]) + post);
    assert(s.update(k, n) =~= pre.push(n) + post);
    lemma_placed_concat(pre.push(s[k]), post, d);
    lemma_placed_concat(pre.push(n), post, d);
    lemma_placed_push(pre, s[k], d);
    lemma_placed_push(pre, n, d);
    vstd::seq_lib::lemma_multiset_commutative(placed(pre, d) + node_placed(s[k], d), placed(post, d));
    vstd::seq_lib::lemma_multiset_commutative(placed(pre, d) + node_placed(n, d), placed(post, d));
    vstd::seq_lib::lemma_multiset_commutative(placed(pre, d), node_placed(s[k], d));
    vstd::seq_lib::lemma_multiset_commutative(placed(pre, d), node_placed(n, d));
    assert(placed(s.update(k, n), d).to_multiset().add(node_placed(s[k], d).to_multiset())
        =~= placed(s, d).to_multiset().add(node_placed(n, d).to_multiset()));
}

/// Placing `files` at the path `parts` below `root` adds exactly those
/// files, in the directory reached by `parts`, and keeps every file that was
/// there.
pub proof fn law_nested_insert_placement(root: Seq<TreeNode>, parts: Seq<Seq<char>>, files: Seq<TreeNode>, d: Seq<Seq<char>>)
    ensures
        placed(nested_insert(root, parts, files), d).to_multiset()
            == placed(root, d).to_multiset().add(placed(files, d + parts).to_multiset()),
    decreases parts.len(),
{
    if parts.len() == 0 {
        assert(d + parts =~= d);
        lemma_placed_concat(root, files, d);
        vstd::seq_lib::lemma_multiset_commutative(placed(root, d), placed(files, d));
    } else {
        let p0 = parts[0];
        let rest = parts.drop_first();
        assert(d.push(p0) + rest =~= d + parts);
        let k = first_directory(root, p0);
        lemma_first_directory(root, p0);
        if k >= 0 {
            let c = children_of(root[k]);
            law_nested_insert_placement(c, rest, files, d.push(p0));
            let n = TreeNode::Directory { name: p0, children: nested_insert(c, rest, files) };
            assert(node_placed(root[k], d) == placed(c, d.push(p0)));
            assert(nested_insert(root, parts, files) == root.update(k, n));
            lemma_placed_update(root, k, n, d);
            let a = placed(root.update(k, n), d).to_multiset();
            let b = node_placed(root[k], d).to_multiset();
            let r = placed(root, d).to_multiset();
            let nn = node_placed(n, d).to_multiset();
            let f = placed(files, d + parts).to_multiset();
            assert(a.add(b) == r.add(nn));
            assert(nn == b.add(f));
            assert forall|x: Placement| a.count(x) == r.add(f).count(x) by {
                assert(a.add(b).count(x) == r.add(nn).count(x));
            }
            assert(a =~= r.add(f));
        } else {
            let e = Seq::<TreeNode>::empty();
            law_nested_insert_placement(e, rest, files, d.push(p0));
            assert(placed(e, d.push(p0)) =~= Seq::<Placement>::empty());
            let n = TreeNode::Directory { name: p0, children: nested_insert(e, rest, files) };
            lemma_placed_push(root, n, d);
            vstd::seq_lib::lemma_multiset_commutative(placed(root, d), node_placed(n, d));
            assert(placed(nested_insert(root, parts, files), d).to_multiset()
                =~= placed(root, d).to_multiset().add(placed(files, d + parts).to_multiset()));
        }
    }
}

/// The files of the directory groups, key by key.
pub open spec fn keys_placed(es: Seq<FileEntryView>, keys: Seq<Seq<char>>) -> Multiset<Placement>
    decreases keys.len(),
{
    if keys.len() == 0 {
        Multiset::empty()
    } else {
        keys_placed(es, keys.drop_last()).add(placed(dir_leaves(es, keys.last()), split_slash(keys.last())).to_multiset())
    }
}

proof fn lemma_assemble_placement(root: Seq<TreeNode>, es: Seq<FileEntryView>, keys: Seq<Seq<char>>)
    ensures
        placed(assemble(root, es, keys), seq![]).to_multiset() == placed(root, seq![]).to_multiset().add(keys_placed(es, keys)),
    decreases keys.len(),
{
    if keys.len() == 0 {
        assert(placed(root, seq![]).to_multiset().add(keys_placed(es, keys)) =~= placed(root, seq![]).to_multiset());
    } else {
        let k = keys.last();
        lemma_assemble_placement(root, es, keys.drop_last());
        law_nested_insert_placement(assemble(root, es, keys.drop_last()), split_slash(k), dir_leaves(es, k), seq![]);
        assert(Seq::<Seq<char>>::empty() + split_slash(k) =~= split_slash(k));
        assert(placed(assemble(root, es, keys), seq![]).to_multiset()
            =~= placed(root, seq![]).to_multiset().add(keys_placed(es, keys)));
    }
}

proof fn lemma_keys_placed_concat(es: Seq<FileEntryView>, a: Seq<Seq<char>>, b: Seq<Seq<char>>)
    ensures
        keys_placed(es, a + b) == keys_placed(es, a).add(keys_placed(es, b)),
    decreases b.len(),
{
    if b.len() == 0 {
        assert(a + b =~= a);
        assert(keys_placed(es, a + b) =~= keys_placed(es, a).add(keys_placed(es, b)));
    } else {
        lemma_keys_placed_concat(es, a, b.drop_last());
        assert((a + b).drop_last() =~= a + b.drop_last());
        assert((a + b).last() == b.last());
        assert(keys_placed(es, a + b) =~= keys_placed(es, a).add(keys_placed(es, b)));
    }
}

proof fn lemma_keys_placed_grow(es: Seq<FileEntryView>, e: FileEntryView, d: Seq<char>, ks: Seq<Seq<char>>)
    requires
        directory_of(e.iso_path) == Some(d),
        ks.no_duplicates(),
    ensures
        keys_placed(es.push(e), ks) == if ks.contains(d) {
            keys_placed(es, ks).insert(Placement { dir: split_slash(d), name: e.name, source: es.len() })
        } else {
            keys_placed(es, ks)
        },
    decreases ks.len(),
{
    let es2 = es.push(e);
    let item = Placement { dir: split_slash(d), name: e.name, source: es.len() };
    assert(es2.drop_last() =~= es);
    if ks.len() > 0 {
        let k = ks.last();
        let ks0 = ks.drop_last();
        assert(ks0.no_duplicates());
        lemma_keys_placed_grow(es, e, d, ks0);
        if k == d {
            assert(leaf_of(es2, es.len() as int) == TreeNode::File { name: e.name, source: es.len() });
            assert(dir_leaves(es2, d) == dir_leaves(es, d).push(leaf_of(es2, es.len() as int)));
            lemma_placed_push(dir_leaves(es, d), leaf_of(es2, es.len() as int), split_slash(d));
            vstd::seq_lib::lemma_multiset_commutative(placed(dir_leaves(es, d), split_slash(d)), seq![item]);
            assert(!ks0.contains(d)) by {
                if ks0.contains(d) {
                    let m = choose|m: int| 0 <= m < ks0.len() && ks0[m] == d;
                    assert(ks[m] == ks[ks.len() - 1]);
                }
            }
            assert(ks.contains(d)) by { assert(ks[ks.len() - 1] == d); }
            assert(keys_placed(es2, ks) =~= keys_placed(es, ks).insert(item));
        } else {
            assert(dir_leaves(es2, k) == dir_leaves(es, k));
            assert(ks.contains(d) == ks0.contains(d)) by {
                if ks.contains(d) {
                    let m = choose|m: int| 0 <= m < ks.len() && ks[m] == d;
                    assert(ks0[m] == d);
                }
                if ks0.contains(d) {
                    let m = choose|m: int| 0 <= m < ks0.len() && ks0[m] == d;
                    assert(ks[m] == d);
                }
            }
            if ks.contains(d) {
                assert(keys_placed(es2, ks) =~= keys_placed(es, ks).insert(item));
            } else {
                assert(keys_placed(es2, ks) =~= keys_placed(es, ks));
            }
        }
    } else {
        assert(keys_placed(es2, ks) =~= keys_placed(es, ks));
    }
}

proof fn lemma_sorted_no_duplicates(ks: Seq<Seq<char>>)
    requires
        keys_sorted(ks),
    ensures
        ks.no_duplicates(),
{
    assert forall|i: int, j: int| 0 <= i < ks.len() && 0 <= j < ks.len() && i != j implies ks[i] != ks[j] by {
        lemma_chars_less_irreflexive(ks[i]);
        if i < j {
            assert(crate::text::chars_less(ks[i], ks[j]));
        } else {
            assert(crate::text::chars_less(ks[j], ks[i]));
        }
    }
}

proof fn lemma_entries_placement(es: Seq<FileEntryView>)
    ensures
        placed(root_leaves(es), seq![]).to_multiset().add(keys_placed(es, dir_keys(es)))
            == expected_placements(es).to_multiset(),
    decreases es.len(),
{
    if es.len() == 0 {
        assert(expected_placements(es) =~= Seq::<Placement>::empty());
        assert(placed(root_leaves(es), seq![]).to_multiset().add(keys_placed(es, dir_keys(es)))
            =~= Multiset::<Placement>::empty());
    } else {
        let prev = es.drop_last();
        let e = es.last();
        let i = prev.len();
        assert(es =~= prev.push(e));
        lemma_entries_placement(prev);
        let item = Placement { dir: entry_dir(e), name: e.name, source: i as nat };
        assert(expected_placements(es) =~= expected_placements(prev).push(item));
        assert(leaf_of(es, i as int) == TreeNode::File { name: e.name, source: i as nat });
        let ks = dir_keys(prev);
        lemma_dir_keys(prev);
        lemma_sorted_no_duplicates(ks);
        match directory_of(e.iso_path) {
            None => {
                assert(entry_dir(e) =~= Seq::<Seq<char>>::empty());
                lemma_placed_push(root_leaves(prev), leaf_of(es, i as int), seq![]);
                vstd::seq_lib::lemma_multiset_commutative(placed(root_leaves(prev), seq![]), seq![item]);
                assert(dir_keys(es) == ks);
                assert forall|k: Seq<char>| dir_leaves(es, k) == dir_leaves(prev, k) by {}
                assert(keys_placed(es, ks) == keys_placed(prev, ks)) by {
                    lemma_keys_placed_same(prev, e, ks);
                }
                assert(placed(root_leaves(es), seq![]).to_multiset().add(keys_placed(es, dir_keys(es)))
                    =~= expected_placements(es).to_multiset());
            },
            Some(d) => {
                assert(root_leaves(es) == root_leaves(prev));
                lemma_keys_placed_grow(prev, e, d, ks);
                lemma_insert_key(ks, d);
                lemma_key_position(ks, d);
                let j = key_position(ks, d);
                if j < ks.len() && ks[j] == d {
                    assert(ks.contains(d));
                    assert(dir_keys(es) == ks);
                } else {
                    assert(!ks.contains(d));
                    let nk = ks.insert(j, d);
                    assert(dir_keys(es) == nk);
                    assert(nk =~= ks.take(j) + seq![d] + ks.skip(j));
                    assert(ks =~= ks.take(j) + ks.skip(j));
                    lemma_keys_placed_concat(es, ks.take(j) + seq![d], ks.skip(j));
                    lemma_keys_placed_concat(es, ks.take(j), seq![d]);
                    lemma_keys_placed_concat(es, ks.take(j), ks.skip(j));
                    assert(dir_leaves(prev, d).len() == 0);
                    assert(dir_leaves(es, d) =~= seq![leaf_of(es, i as int)]);
                    lemma_placed_push(Seq::<TreeNode>::empty(), leaf_of(es, i as int), split_slash(d));
                    assert(placed(dir_leaves(es, d), split_slash(d)) =~= seq![item]);
                    assert(seq![d].drop_last() =~= Seq::<Seq<char>>::empty());
                    assert(seq![d].last() == d);
                    assert(keys_placed(es, Seq::<Seq<char>>::empty()) == Multiset::<Placement>::empty());
                    assert(keys_placed(es, seq![d]) =~= Multiset::<Placement>::empty().add(seq![item].to_multiset()));
                    assert(keys_placed(es, nk) =~= keys_placed(prev, ks).insert(item));
                }
                assert(placed(root_leaves(es), seq![]).to_multiset().add(keys_placed(es, dir_keys(es)))
                    =~= expected_placements(es).to_multiset());
            },
        }
    }
}

proof fn lemma_keys_placed_same(es: Seq<FileEntryView>, e: FileEntryView, ks: Seq<Seq<char>>)
    requires
        directory_of(e.iso_path) is None,
    ensures
        keys_placed(es.push(e), ks) == keys_placed(es, ks),
    decreases ks.len(),
{
    assert(es.push(e).drop_last() =~= es);
    if ks.len() > 0 {
        lemma_keys_placed_same(es, e, ks.drop_last());
        assert(dir_leaves(es.push(e), ks.last()) == dir_leaves(es, ks.last()));
    }
}

/// Every entry lands exactly once in the tree built from the entries, in
/// the directory named by its image path (at the top when the path has no
/// directory part), under its own name and with its own contents, and
/// nothing else is in the tree.
pub proof fn law_every_entry_placed(es: Seq<FileEntryView>)
    ensures
        placed(tree_of(es), seq![]).to_multiset() == expected_placements(es).to_multiset(),
{
    lemma_assemble_placement(root_leaves(es), es, dir_keys(es));
    lemma_entries_placement(es);
}

/// The directories are placed in strictly ascending order, each once, and
/// every directory that holds an entry is among them.
pub proof fn law_directory_order(es: Seq<FileEntryView>)
    ensures
        keys_sorted(dir_keys(es)),
        dir_keys(es).no_duplicates(),
        forall|i: int| 0 <= i < es.len() && directory_of(es[i].iso_path) is Some
            ==> dir_keys(es).contains(#[trigger] directory_of(es[i].iso_path)->0),
{
    lemma_dir_keys(es);
    lemma_sorted_no_duplicates(dir_keys(es));
    assert forall|i: int| 0 <= i < es.len() && directory_of(es[i].iso_path) is Some
        implies dir_keys(es).contains(#[trigger] directory_of(es[i].iso_path)->0) by {
        lemma_dir_leaves_nonempty(es, i);
    }
}

proof fn lemma_dir_leaves_nonempty(es: Seq<FileEntryView>, i: int)
    requires
        0 <= i < es.len(),
        directory_of(es[i].iso_path) is Some,
    ensures
        dir_leaves(es, directory_of(es[i].iso_path)->0).len() > 0,
    decreases es.len(),
{
    let d = directory_of(es[i].iso_path)->0;
    if i < es.len() - 1 {
        assert(es.drop_last()[i] == es[i]);
        lemma_dir_leaves_nonempty(es.drop_last(), i);
    }
}

/// No directory shares its name with an earlier directory beside it, and
/// the same holds in every directory below.
pub open spec fn unique_directories(nodes: Seq<TreeNode>) -> bool
    decreases nodes,
{
    if nodes.len() == 0 {
        true
    } else {
        let prefix = nodes.subrange(0, nodes.len() - 1);
        unique_directories(prefix) && match nodes[nodes.len() - 1] {
            TreeNode::File { .. } => true,
            TreeNode::Directory { name, children } => first_directory(prefix, name) == -1
                && unique_directories(children),
        }
    }
}

/// Node `i` of `nodes` is a file, or a directory whose name no earlier
/// directory has and whose children have unique directories.
pub open spec fn directory_fits(nodes: Seq<TreeNode>, i: int) -> bool {
    match nodes[i] {
        TreeNode::File { .. } => true,
        TreeNode::Directory { name, children } => (forall|j: int| 0 <= j < i ==> !is_directory_named(#[trigger] nodes[j], name))
            && unique_directories(children),
    }
}

proof fn lemma_unique_directories(nodes: Seq<TreeNode>)
    ensures
        unique_directories(nodes) == forall|i: int| 0 <= i < nodes.len() ==> #[trigger] directory_fits(nodes, i),
    decreases nodes.len(),
{
    if nodes.len() > 0 {
        let n = nodes.len() - 1;
        let prefix = nodes.subrange(0, n);
        lemma_unique_directories(prefix);
        assert forall|i: int| 0 <= i < n implies #[trigger] directory_fits(prefix, i) == directory_fits(nodes, i) by {
            assert(prefix[i] == nodes[i]);
            assert forall|j: int| 0 <= j < i implies prefix[j] == nodes[j] by {}
        }
        let last_ok = match nodes[n] {
            TreeNode::File { .. } => true,
            TreeNode::Directory { name, children } => first_directory(prefix, name) == -1
                && unique_directories(children),
        };
        assert(unique_directories(nodes) == (unique_directories(prefix) && last_ok));
        match nodes[n] {
            TreeNode::Directory { name, .. } => {
                lemma_first_directory(prefix, name);
                assert forall|j: int| 0 <= j < n implies prefix[j] == nodes[j] by {}
                if first_directory(prefix, name) >= 0 {
                    let k = first_directory(prefix, name);
                    assert(nodes[k] == prefix[k]);
                    assert(!directory_fits(nodes, n));
                }
                assert(last_ok == directory_fits(nodes, n));
            },
            TreeNode::File { .. } => {},
        }
        if forall|i: int| 0 <= i < nodes.len() ==> #[trigger] directory_fits(nodes, i) {
            assert(directory_fits(nodes, n));
            assert forall|i: int| 0 <= i < n implies #[trigger] directory_fits(prefix, i) by {
                assert(directory_fits(nodes, i));
            }
        }
        if unique_directories(nodes) {
            assert forall|i: int| 0 <= i < nodes.len() implies #[trigger] directory_fits(nodes, i) by {
                if i < n {
                    assert(directory_fits(prefix, i));
                }
            }
        }
    }
}

proof fn lemma_files_unique(nodes: Seq<TreeNode>)
    requires
        forall|i: int| 0 <= i < nodes.len() ==> (#[trigger] nodes[i]) is File,
    ensures
        unique_directories(nodes),
{
    lemma_unique_directories(nodes);
    assert forall|i: int| 0 <= i < nodes.len() implies #[trigger] directory_fits(nodes, i) by {
        assert(nodes[i] is File);
    }
}

/// Placing files in a tree whose directories are unique keeps them unique:
/// a directory on the path is entered when it exists and made only when it
/// does not, so directories are merged, never doubled.
pub proof fn law_nested_insert_unique(root: Seq<TreeNode>, parts: Seq<Seq<char>>, files: Seq<TreeNode>)
    requires
        unique_directories(root),
        forall|i: int| 0 <= i < files.len() ==> (#[trigger] files[i]) is File,
    ensures
        unique_directories(nested_insert(root, parts, files)),
    decreases parts.len(),
{
    let r = nested_insert(root, parts, files);
    lemma_unique_directories(root);
    lemma_unique_directories(r);
    if parts.len() == 0 {
        assert forall|i: int| 0 <= i < r.len() implies #[trigger] directory_fits(r, i) by {
            if i < root.len() {
                assert(r[i] == root[i]);
                assert(directory_fits(root, i));
                assert forall|j: int| 0 <= j < i implies r[j] == root[j] by {}
            } else {
                assert(r[i] == files[i - root.len()]);
            }
        }
    } else {
        let k = first_directory(root, parts[0]);
        lemma_first_directory(root, parts[0]);
        if k >= 0 {
            assert(directory_fits(root, k));
            law_nested_insert_unique(children_of(root[k]), parts.drop_first(), files);
            assert forall|i: int| 0 <= i < r.len() implies #[trigger] directory_fits(r, i) by {
                assert(directory_fits(root, i));
                assert forall|j: int| 0 <= j < r.len() && j != k implies r[j] == root[j] by {}
                assert(is_directory_named(r[k], parts[0]) && is_directory_named(root[k], parts[0]));
                assert forall|j: int, m: Seq<char>| #![trigger is_directory_named(r[j], m)] 0 <= j < r.len()
                    implies is_directory_named(r[j], m) == is_directory_named(root[j], m) by {
                    if j == k {
                        assert(r[j] is Directory && root[j] is Directory);
                    }
                }
            }
        } else {
            law_nested_insert_unique(seq![], parts.drop_first(), files);
            assert forall|i: int| 0 <= i < r.len() implies #[trigger] directory_fits(r, i) by {
                if i < root.len() {
                    assert(r[i] == root[i]);
                    assert(directory_fits(root, i));
                    assert forall|j: int| 0 <= j < i implies r[j] == root[j] by {}
                } else {
                    assert forall|j: int| 0 <= j < i implies r[j] == root[j] && !is_directory_named(#[trigger] r[j], parts[0]) by {}
                }
            }
        }
    }
}

proof fn lemma_assemble_unique(root: Seq<TreeNode>, es: Seq<FileEntryView>, keys: Seq<Seq<char>>)
    requires
        unique_directories(root),
    ensures
        unique_directories(assemble(root, es, keys)),
    decreases keys.len(),
{
    if keys.len() > 0 {
        lemma_assemble_unique(root, es, keys.drop_last());
        lemma_leaves_are_files(es, keys.last());
        law_nested_insert_unique(assemble(root, es, keys.drop_last()), split_slash(keys.last()), dir_leaves(es, keys.last()));
    }
}

/// In the tree of any list of entries no two directories beside each other
/// share a name, at any depth.
pub proof fn law_tree_directories_unique(es: Seq<FileEntryView>)
    ensures
        unique_directories(tree_of(es)),
{
    lemma_leaves_are_files(es, seq![]);
    lemma_files_unique(root_leaves(es));
    lemma_assemble_unique(root_leaves(es), es, dir_keys(es));
}

} // verus!
