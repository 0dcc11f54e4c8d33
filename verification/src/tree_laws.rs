//! What a tree holds, told by the paths that lead through it.

use vstd::prelude::*;
use crate::order::text_lt;
use crate::order::lemma_text_order_total;
use crate::order::lemma_text_lt_transitive;
use crate::tree::Tree;
use crate::tree::lemma_slot_exists;
use crate::tree::lemma_slot_unique;
use crate::tree::lemma_with_child_sorted;
use crate::tree::lemma_insert_wf;
use crate::tree::lemma_tree_of_wf;
use crate::tree::tree_of;
use crate::path::components;
use crate::records::FileDump;
use vstd::seq_lib::to_multiset_contains;

verus! {

/// After a child was put in under `name`, the children under the other
/// names are those of before.
pub proof fn lemma_with_child_lookup(t: Tree, name: Seq<char>, sub: Tree, other: Seq<char>)
    requires
        t.sorted(),
    ensures
        t.with_child(name, sub).has_child(other) == (other == name || t.has_child(other)),
        t.with_child(name, sub).child(other) == if other == name {
            sub
        } else {
            t.child(other)
        },
{
    lemma_with_child_sorted(t, name, sub);
    if other != name {
        let u = t.with_child(name, sub);
        lemma_slot_exists(t, other);
        lemma_slot_exists(t, name);
        lemma_text_order_total(other, name);
        let km = t.slot(other);
        let k = t.slot(name);
        if t.has_child(name) {
            assert forall|i: int| 0 <= i < u.children.len() implies (#[trigger] u.children[i]).0
                == t.children[i].0 by {}
            assert(u.is_slot(other, km)) by {
                assert forall|i: int| 0 <= i < km implies text_lt(
                    (#[trigger] u.children[i]).0,
                    other,
                ) by {
                    assert(text_lt(t.children[i].0, other));
                }
                assert forall|i: int| km <= i < u.children.len() implies !text_lt(
                    (#[trigger] u.children[i]).0,
                    other,
                ) by {
                    assert(!text_lt(t.children[i].0, other));
                }
            }
            lemma_slot_unique(u, other, km);
            if km < t.children.len() && km != k {
                assert(u.children[km] == t.children[km]);
            }
        } else if text_lt(other, name) {
            if km > k {
                assert(text_lt(t.children[k].0, other));
                lemma_text_lt_transitive(t.children[k].0, other, name);
                assert(!text_lt(t.children[k].0, name));
            }
            assert(u.is_slot(other, km)) by {
                assert forall|i: int| 0 <= i < km implies text_lt(
                    (#[trigger] u.children[i]).0,
                    other,
                ) by {
                    assert(u.children[i] == t.children[i]);
                }
                assert forall|i: int| km <= i < u.children.len() implies !text_lt(
                    (#[trigger] u.children[i]).0,
                    other,
                ) by {
                    if i < k {
                        assert(u.children[i] == t.children[i]);
                    } else if i > k {
                        assert(u.children[i] == t.children[i - 1]);
                    }
                }
            }
            lemma_slot_unique(u, other, km);
            if km < k {
                assert(u.children[km] == t.children[km]);
            } else if km < t.children.len() {
                if t.children[km].0 == other {
                    assert(!text_lt(t.children[k].0, name));
                }
            }
        } else {
            assert(text_lt(name, other));
            if k > km {
                assert(text_lt(t.children[km].0, name));
                lemma_text_lt_transitive(t.children[km].0, name, other);
                assert(!text_lt(t.children[km].0, other));
            }
            assert(u.is_slot(other, km + 1)) by {
                assert forall|i: int| 0 <= i < km + 1 implies text_lt(
                    (#[trigger] u.children[i]).0,
                    other,
                ) by {
                    if i < k {
                        assert(u.children[i] == t.children[i]);
                    } else if i > k {
                        assert(u.children[i] == t.children[i - 1]);
                    }
                }
                assert forall|i: int| km + 1 <= i < u.children.len() implies !text_lt(
                    (#[trigger] u.children[i]).0,
                    other,
                ) by {
                    assert(u.children[i] == t.children[i - 1]);
                }
            }
            lemma_slot_unique(u, other, km + 1);
            if km < t.children.len() {
                assert(u.children[km + 1] == t.children[km]);
            }
        }
    }
}

/// Which children a node has, and what they are, depends on its list of
/// children alone, not on its own mark.
pub proof fn lemma_lookup_by_children(a: Tree, b: Tree, name: Seq<char>)
    requires
        a.sorted(),
        a.children == b.children,
    ensures
        a.has_child(name) == b.has_child(name),
        a.child(name) == b.child(name),
{
    lemma_slot_exists(a, name);
    assert(b.is_slot(name, a.slot(name)));
    lemma_slot_unique(b, name, a.slot(name));
}

/// The empty tree has no node but itself.
pub proof fn lemma_empty_tree_nodes(path: Seq<Seq<char>>)
    ensures
        Tree::empty().has_node(path) <==> path.len() == 0,
        !Tree::empty().has_file(path),
{
    if path.len() > 0 {
        lemma_slot_exists(Tree::empty(), path[0]);
    }
}

/// What putting in a path changes: afterwards the tree has a node at every
/// prefix of the path beside those it had, and a file at the path itself
/// beside those it had.
pub proof fn lemma_insert_node_at(t: Tree, path: Seq<Seq<char>>, at: Seq<Seq<char>>)
    requires
        t.wf(),
    ensures
        t.insert(path).has_node(at) <==> t.has_node(at) || at.is_prefix_of(path),
        t.insert(path).has_file(at) <==> t.has_file(at) || (at == path && path.len() > 0),
    decreases path.len(),
{
    if path.len() == 0 {
        if at.is_prefix_of(path) {
            assert(at.len() == 0);
        }
    } else if at.len() == 0 {
        assert(at.is_prefix_of(path));
    } else {
        let name = path[0];
        let sub = t.child(name);
        let grown = if path.len() == 1 {
            Tree { children: sub.children, is_file: true }
        } else {
            sub.insert(path.skip(1))
        };
        let u = t.with_child(name, grown);
        let rest = at.skip(1);
        lemma_slot_exists(t, name);
        assert(sub.wf());
        lemma_with_child_lookup(t, name, grown, at[0]);
        if at[0] != name {
            assert(u.node_at(at) == t.node_at(at));
            if at.is_prefix_of(path) {
                assert(at[0] == path.subrange(0, at.len() as int)[0]);
            }
        } else {
            assert(u.node_at(at) == grown.node_at(rest));
            assert(at.is_prefix_of(path) <==> rest.is_prefix_of(path.skip(1))) by {
                if at.is_prefix_of(path) {
                    assert(rest =~= path.skip(1).subrange(0, rest.len() as int));
                }
                if rest.is_prefix_of(path.skip(1)) {
                    assert(at =~= path.subrange(0, at.len() as int)) by {
                        assert forall|i: int| 0 <= i < at.len() implies at[i] == path[i] by {
                            if i > 0 {
                                assert(rest[i - 1] == at[i]);
                                assert(path.skip(1).subrange(0, rest.len() as int)[i - 1]
                                    == path[i]);
                            }
                        }
                    }
                }
            }
            assert(at == path <==> rest == path.skip(1)) by {
                if rest == path.skip(1) {
                    assert(at =~= path) by {
                        assert forall|i: int| 0 <= i < at.len() implies at[i] == path[i] by {
                            if i > 0 {
                                assert(rest[i - 1] == at[i]);
                                assert(path.skip(1)[i - 1] == path[i]);
                            }
                        }
                    }
                }
            }
            if !t.has_child(name) {
                lemma_empty_tree_nodes(rest);
            }
            if path.len() == 1 {
                assert(path.skip(1).len() == 0);
                if rest.len() == 0 {
                    assert(rest.is_prefix_of(path.skip(1)));
                    assert(rest =~= path.skip(1));
                } else {
                    lemma_lookup_by_children(sub, grown, rest[0]);
                    assert(grown.node_at(rest) == sub.node_at(rest));
                    if rest.is_prefix_of(path.skip(1)) {
                        assert(rest.len() == 0);
                    }
                }
            } else {
                lemma_insert_node_at(sub, path.skip(1), rest);
            }
        }
    }
}

/// In a sorted node the child at index `i` stands in the slot of its name.
pub proof fn lemma_child_slot(t: Tree, i: int)
    requires
        t.sorted(),
        0 <= i < t.children.len(),
    ensures
        t.slot(t.children[i].0) == i,
        t.has_child(t.children[i].0),
        t.child(t.children[i].0) == t.children[i].1,
{
    let name = t.children[i].0;
    assert(t.is_slot(name, i)) by {
        assert forall|k: int| i <= k < t.children.len() implies !text_lt(
            (#[trigger] t.children[k]).0,
            name,
        ) by {
            lemma_text_order_total(t.children[k].0, name);
            if k > i {
                assert(text_lt(t.children[i].0, t.children[k].0));
            }
        }
    }
    lemma_slot_unique(t, name, i);
}

/// Two sorted nodes with children of the same names hold the names at the
/// same places, as far as the first `n` children of the first go.
proof fn lemma_names_agree_upto(a: Tree, b: Tree, n: int)
    requires
        a.sorted(),
        b.sorted(),
        forall|name: Seq<char>| #[trigger] a.has_child(name) == b.has_child(name),
        0 <= n <= a.children.len(),
    ensures
        n <= b.children.len(),
        forall|i: int| 0 <= i < n ==> (#[trigger] a.children[i]).0 == b.children[i].0,
    decreases n,
{
    if n > 0 {
        lemma_names_agree_upto(a, b, n - 1);
        let x = a.children[n - 1].0;
        lemma_child_slot(a, n - 1);
        assert(b.has_child(x));
        lemma_slot_exists(b, x);
        let j = b.slot(x);
        lemma_text_order_total(x, x);
        if j < n - 1 {
            assert(a.children[j].0 == b.children[j].0);
            assert(text_lt(a.children[j].0, a.children[n - 1].0));
        }
        if j > n - 1 {
            let y = b.children[n - 1].0;
            assert(text_lt(b.children[n - 1].0, b.children[j].0));
            lemma_child_slot(b, n - 1);
            assert(a.has_child(y));
            lemma_slot_exists(a, y);
            let back = a.slot(y);
            lemma_text_order_total(x, y);
            lemma_text_order_total(y, y);
            if back < n - 1 {
                assert(a.children[back].0 == b.children[back].0);
                assert(text_lt(b.children[back].0, b.children[n - 1].0));
            } else if back > n - 1 {
                assert(text_lt(a.children[n - 1].0, a.children[back].0));
            }
        }
    }
}

/// Two trees hold the same paths: the same nodes, and the same files.
pub open spec fn same_paths(a: Tree, b: Tree) -> bool {
    forall|path: Seq<Seq<char>>|
        #![trigger a.node_at(path)]
        #![trigger b.node_at(path)]
        a.has_node(path) == b.has_node(path) && a.has_file(path) == b.has_file(path)
}

/// A well-formed tree is what its paths say: two well-formed trees with the
/// same nodes and the same files are equal.
pub proof fn lemma_tree_extensional(a: Tree, b: Tree)
    requires
        a.wf(),
        b.wf(),
        same_paths(a, b),
    ensures
        a == b,
    decreases a,
{
    let root = Seq::<Seq<char>>::empty();
    assert(a.node_at(root) == Some(a));
    assert(b.node_at(root) == Some(b));
    assert(a.has_file(root) == b.has_file(root));
    assert forall|name: Seq<char>| #[trigger] a.has_child(name) == b.has_child(name) by {
        let path = seq![name];
        assert(path[0] == name);
        assert(path.skip(1) =~= root);
        assert(a.child(name).node_at(root) == Some(a.child(name)));
        assert(b.child(name).node_at(root) == Some(b.child(name)));
        assert(a.has_node(path) == a.has_child(name));
        assert(b.has_node(path) == b.has_child(name));
        assert(a.has_node(path) == b.has_node(path));
    }
    lemma_names_agree_upto(a, b, a.children.len() as int);
    lemma_names_agree_upto(b, a, b.children.len() as int);
    assert forall|i: int| 0 <= i < a.children.len() implies #[trigger] a.children[i]
        == b.children[i] by {
        let name = a.children[i].0;
        let sub_a = a.children[i].1;
        let sub_b = b.children[i].1;
        lemma_child_slot(a, i);
        lemma_child_slot(b, i);
        assert(b.children[i].0 == name);
        assert(sub_a.wf());
        assert(sub_b.wf());
        assert forall|path: Seq<Seq<char>>|
            #![trigger sub_a.node_at(path)]
            #![trigger sub_b.node_at(path)]
            sub_a.has_node(path) == sub_b.has_node(path) && sub_a.has_file(path)
                == sub_b.has_file(path) by {
            let longer = seq![name] + path;
            assert(longer[0] == name);
            assert(longer.skip(1) =~= path);
            assert(a.node_at(longer) == sub_a.node_at(path));
            assert(b.node_at(longer) == sub_b.node_at(path));
            assert(a.has_node(longer) == b.has_node(longer));
            assert(a.has_file(longer) == b.has_file(longer));
        }
        lemma_tree_extensional(sub_a, sub_b);
    }
    assert(a.children =~= b.children);
}

/// The order in which two paths are put in does not matter.
pub proof fn lemma_insert_commutes(t: Tree, p: Seq<Seq<char>>, q: Seq<Seq<char>>)
    requires
        t.wf(),
    ensures
        t.insert(p).insert(q) == t.insert(q).insert(p),
{
    let pq = t.insert(p).insert(q);
    let qp = t.insert(q).insert(p);
    lemma_insert_wf(t, p);
    lemma_insert_wf(t, q);
    lemma_insert_wf(t.insert(p), q);
    lemma_insert_wf(t.insert(q), p);
    assert forall|path: Seq<Seq<char>>|
        #![trigger pq.node_at(path)]
        #![trigger qp.node_at(path)]
        pq.has_node(path) == qp.has_node(path) && pq.has_file(path) == qp.has_file(path) by {
        lemma_insert_node_at(t, p, path);
        lemma_insert_node_at(t, q, path);
        lemma_insert_node_at(t.insert(p), q, path);
        lemma_insert_node_at(t.insert(q), p, path);
    }
    lemma_tree_extensional(pq, qp);
}

/// Putting a path in a second time changes nothing.
pub proof fn lemma_insert_idempotent(t: Tree, p: Seq<Seq<char>>)
    requires
        t.wf(),
    ensures
        t.insert(p).insert(p) == t.insert(p),
{
    let once = t.insert(p);
    let twice = once.insert(p);
    lemma_insert_wf(t, p);
    lemma_insert_wf(once, p);
    assert forall|path: Seq<Seq<char>>|
        #![trigger twice.node_at(path)]
        #![trigger once.node_at(path)]
        twice.has_node(path) == once.has_node(path) && twice.has_file(path) == once.has_file(
            path,
        ) by {
        lemma_insert_node_at(t, p, path);
        lemma_insert_node_at(once, p, path);
    }
    lemma_tree_extensional(twice, once);
}

/// The path `at` leads along the path of one of the files.
pub open spec fn on_the_way(files: Seq<FileDump>, at: Seq<Seq<char>>) -> bool {
    exists|i: int|
        0 <= i < files.len() && at.is_prefix_of(components((#[trigger] files[i]).relative_path@))
}

/// The path `at` is the path of one of the files.
pub open spec fn is_path_of_file(files: Seq<FileDump>, at: Seq<Seq<char>>) -> bool {
    exists|i: int| 0 <= i < files.len() && at == components((#[trigger] files[i]).relative_path@)
}

/// The tree of some files has a node exactly where the path of a file leads
/// along, and a file exactly where the path of a file ends.
pub proof fn lemma_tree_of_node_at(files: Seq<FileDump>, at: Seq<Seq<char>>)
    ensures
        tree_of(files).has_node(at) <==> at.len() == 0 || on_the_way(files, at),
        tree_of(files).has_file(at) <==> at.len() > 0 && is_path_of_file(files, at),
    decreases files.len(),
{
    if files.len() == 0 {
        lemma_empty_tree_nodes(at);
    } else {
        let init = files.drop_last();
        let last = files.len() - 1;
        let path = components(files.last().relative_path@);
        lemma_tree_of_node_at(init, at);
        lemma_tree_of_wf(init);
        lemma_insert_node_at(tree_of(init), path, at);
        assert(files[last] == files.last());
        if on_the_way(init, at) {
            let i = choose|i: int|
                0 <= i < init.len() && at.is_prefix_of(
                    components((#[trigger] init[i]).relative_path@),
                );
            assert(init[i] == files[i]);
        }
        if on_the_way(files, at) {
            let i = choose|i: int|
                0 <= i < files.len() && at.is_prefix_of(
                    components((#[trigger] files[i]).relative_path@),
                );
            if i < last {
                assert(init[i] == files[i]);
            }
        }
        if is_path_of_file(init, at) {
            let i = choose|i: int|
                0 <= i < init.len() && at == components((#[trigger] init[i]).relative_path@);
            assert(init[i] == files[i]);
        }
        if is_path_of_file(files, at) {
            let i = choose|i: int|
                0 <= i < files.len() && at == components((#[trigger] files[i]).relative_path@);
            if i < last {
                assert(init[i] == files[i]);
            }
        }
    }
}

/// The tree does not depend on the order of the files: two arrangements of
/// the same files have the same tree.
pub proof fn lemma_tree_ignores_arrival(a: Seq<FileDump>, b: Seq<FileDump>)
    requires
        a.to_multiset() == b.to_multiset(),
    ensures
        tree_of(a) == tree_of(b),
{
    broadcast use to_multiset_contains;

    let ta = tree_of(a);
    let tb = tree_of(b);
    lemma_tree_of_wf(a);
    lemma_tree_of_wf(b);
    assert forall|at: Seq<Seq<char>>|
        #![trigger ta.node_at(at)]
        #![trigger tb.node_at(at)]
        ta.has_node(at) == tb.has_node(at) && ta.has_file(at) == tb.has_file(at) by {
        lemma_tree_of_node_at(a, at);
        lemma_tree_of_node_at(b, at);
        lemma_same_files_same_paths(a, b, at);
        lemma_same_files_same_paths(b, a, at);
    }
    lemma_tree_extensional(ta, tb);
}

/// A path that one arrangement of the files leads along, or ends at, is one
/// that every arrangement of them does.
proof fn lemma_same_files_same_paths(a: Seq<FileDump>, b: Seq<FileDump>, at: Seq<Seq<char>>)
    requires
        a.to_multiset() == b.to_multiset(),
    ensures
        on_the_way(a, at) ==> on_the_way(b, at),
        is_path_of_file(a, at) ==> is_path_of_file(b, at),
{
    broadcast use to_multiset_contains;

    if on_the_way(a, at) {
        let i = choose|i: int|
            0 <= i < a.len() && at.is_prefix_of(components((#[trigger] a[i]).relative_path@));
        assert(a.contains(a[i]));
        assert(b.to_multiset().count(a[i]) > 0);
        assert(b.contains(a[i]));
        let j = choose|j: int| 0 <= j < b.len() && b[j] == a[i];
        assert(at.is_prefix_of(components(b[j].relative_path@)));
    }
    if is_path_of_file(a, at) {
        let i = choose|i: int|
            0 <= i < a.len() && at == components((#[trigger] a[i]).relative_path@);
        assert(a.contains(a[i]));
        assert(b.to_multiset().count(a[i]) > 0);
        assert(b.contains(a[i]));
        let j = choose|j: int| 0 <= j < b.len() && b[j] == a[i];
        assert(at == components(b[j].relative_path@));
    }
}

} // verus!
