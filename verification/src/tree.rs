//! The file tree: built from path components, rendered as an indented
//! listing.

use vstd::prelude::*;
use vstd::string::*;
use crate::order::text_lt;
use crate::order::compare_text;
use crate::order::Relation;
use crate::order::lemma_text_order_total;
use crate::order::lemma_text_lt_transitive;
use crate::path::components;
use crate::path::split_components;
use crate::records::FileDump;
use crate::text::joined;
use crate::text::join_lines;

verus! {

/// A file tree as a mathematical value: the children in the order in which
/// they are listed, each with its name, and whether a path ends here.
pub struct Tree {
    pub children: Seq<(Seq<char>, Tree)>,
    pub is_file: bool,
}

impl Tree {
    /// The tree with no children that is no file.
    pub open spec fn empty() -> Tree {
        Tree { children: Seq::empty(), is_file: false }
    }

    /// Every node lists its children by name in strictly increasing order,
    /// so no name occurs twice under one node.
    pub open spec fn wf(self) -> bool
        decreases self,
    {
        &&& self.sorted()
        &&& forall|i: int| 0 <= i < self.children.len() ==> (#[trigger] self.children[i]).1.wf()
    }

    /// The children of this node stand in strictly increasing order of name.
    pub open spec fn sorted(self) -> bool {
        forall|i: int, j: int|
            0 <= i < j < self.children.len() ==> text_lt(
                (#[trigger] self.children[i]).0,
                (#[trigger] self.children[j]).0,
            )
    }

    /// `k` is where a child called `name` stands or would be put: the names
    /// before `k` come before `name`, those from `k` on do not.
    pub open spec fn is_slot(self, name: Seq<char>, k: int) -> bool {
        &&& 0 <= k <= self.children.len()
        &&& forall|i: int| 0 <= i < k ==> text_lt((#[trigger] self.children[i]).0, name)
        &&& forall|i: int|
            k <= i < self.children.len() ==> !text_lt((#[trigger] self.children[i]).0, name)
    }

    /// The slot of `name` among the children.
    pub open spec fn slot(self, name: Seq<char>) -> int {
        choose|k: int| self.is_slot(name, k)
    }

    /// Whether a child called `name` exists.
    pub open spec fn has_child(self, name: Seq<char>) -> bool {
        let k = self.slot(name);
        k < self.children.len() && self.children[k].0 == name
    }

    /// The child called `name`, or the empty tree where there is none.
    pub open spec fn child(self, name: Seq<char>) -> Tree {
        if self.has_child(name) {
            self.children[self.slot(name)].1
        } else {
            Tree::empty()
        }
    }

    /// This tree with the child called `name` replaced by `sub`, or with
    /// `sub` put in under that name where there was no such child.
    pub open spec fn with_child(self, name: Seq<char>, sub: Tree) -> Tree {
        let k = self.slot(name);
        Tree {
            children: if self.has_child(name) {
                self.children.update(k, (name, sub))
            } else {
                self.children.insert(k, (name, sub))
            },
            is_file: self.is_file,
        }
    }

    /// The node that `path` leads to from this one, if there is one.
    pub open spec fn node_at(self, path: Seq<Seq<char>>) -> Option<Tree>
        decreases path.len(),
    {
        if path.len() == 0 {
            Some(self)
        } else if self.has_child(path[0]) {
            self.child(path[0]).node_at(path.skip(1))
        } else {
            None
        }
    }

    /// Whether `path` leads to a node from this one.
    pub open spec fn has_node(self, path: Seq<Seq<char>>) -> bool {
        self.node_at(path) is Some
    }

    /// Whether `path` leads to a node that is marked as a file.
    pub open spec fn has_file(self, path: Seq<Seq<char>>) -> bool {
        match self.node_at(path) {
            Some(node) => node.is_file,
            None => false,
        }
    }

    /// This tree after the path with the given components has been put in:
    /// every component but the last names a directory on the way, made where
    /// it is missing, and the node of the last one is marked as a file. The
    /// empty path changes nothing.
    pub open spec fn insert(self, path: Seq<Seq<char>>) -> Tree
        decreases path.len(),
    {
        if path.len() == 0 {
            self
        } else {
            let sub = self.child(path[0]);
            let grown = if path.len() == 1 {
                Tree { children: sub.children, is_file: true }
            } else {
                sub.insert(path.skip(1))
            };
            self.with_child(path[0], grown)
        }
    }
}

/// What stands between the indentation and a name: one mark for the last
/// child of a node, another for the others.
pub open spec fn connector(last: bool) -> Seq<char> {
    if last {
        "`-- "@
    } else {
        "|-- "@
    }
}

/// What the lines below a child add to the indentation: blanks below the
/// last child of a node, a continuing bar below the others.
pub open spec fn continuation(last: bool) -> Seq<char> {
    if last {
        "    "@
    } else {
        "|   "@
    }
}

/// The line of one child: indentation, connector, name, and a closing `/`
/// where the child has children of its own and is not marked as a file.
pub open spec fn entry_line(prefix: Seq<char>, name: Seq<char>, sub: Tree, last: bool) -> Seq<
    char,
> {
    prefix + connector(last) + name + if sub.children.len() > 0 && !sub.is_file {
        "/"@
    } else {
        Seq::empty()
    }
}

/// The lines that list what is below `t`, each indented by `prefix`: for
/// each child in order its own line, then the listing of what is below it.
pub open spec fn listing(t: Tree, prefix: Seq<char>) -> Seq<Seq<char>>
    decreases t,
{
    listing_upto(t.children, prefix, t.children.len() as int)
}

/// The lines for the first `n` of the given children.
pub open spec fn listing_upto(children: Seq<(Seq<char>, Tree)>, prefix: Seq<char>, n: int) -> Seq<
    Seq<char>,
>
    decreases children, n,
{
    if n <= 0 || n > children.len() {
        Seq::empty()
    } else {
        let name = children[n - 1].0;
        let sub = children[n - 1].1;
        let last = n == children.len();
        listing_upto(children, prefix, n - 1) + seq![entry_line(prefix, name, sub, last)] + listing(
            sub,
            prefix + continuation(last),
        )
    }
}

/// In a sorted node every name has exactly one slot.
pub proof fn lemma_slot_unique(t: Tree, name: Seq<char>, k: int)
    requires
        t.is_slot(name, k),
    ensures
        t.slot(name) == k,
{
    let c = t.slot(name);
    assert(t.is_slot(name, c));
    if c < k {
        assert(text_lt(t.children[c].0, name));
    } else if k < c {
        assert(text_lt(t.children[k].0, name));
    }
}

/// The slot of a name with respect to the first `n` children of a sorted
/// node.
proof fn lemma_slot_exists_upto(t: Tree, name: Seq<char>, n: int) -> (k: int)
    requires
        t.sorted(),
        0 <= n <= t.children.len(),
    ensures
        0 <= k <= n,
        forall|i: int| 0 <= i < k ==> text_lt((#[trigger] t.children[i]).0, name),
        forall|i: int| k <= i < n ==> !text_lt((#[trigger] t.children[i]).0, name),
    decreases n,
{
    if n == 0 {
        0
    } else {
        let k = lemma_slot_exists_upto(t, name, n - 1);
        if k == n - 1 && text_lt(t.children[n - 1].0, name) {
            n
        } else {
            if text_lt(t.children[n - 1].0, name) {
                // the child at `k` comes before the last one, which comes before `name`
                assert(text_lt(t.children[k].0, t.children[n - 1].0));
                lemma_text_lt_transitive(t.children[k].0, t.children[n - 1].0, name);
            }
            k
        }
    }
}

/// In a sorted node every name has a slot.
pub proof fn lemma_slot_exists(t: Tree, name: Seq<char>)
    requires
        t.sorted(),
    ensures
        t.is_slot(name, t.slot(name)),
{
    let k = lemma_slot_exists_upto(t, name, t.children.len() as int);
    assert(t.is_slot(name, k));
}

/// Putting a child in under its name keeps a node sorted.
pub proof fn lemma_with_child_sorted(t: Tree, name: Seq<char>, sub: Tree)
    requires
        t.sorted(),
    ensures
        t.with_child(name, sub).sorted(),
        t.with_child(name, sub).is_slot(name, t.slot(name)),
        t.with_child(name, sub).has_child(name),
        t.with_child(name, sub).child(name) == sub,
{
    lemma_slot_exists(t, name);
    let k = t.slot(name);
    let u = t.with_child(name, sub);
    if t.has_child(name) {
        assert forall|i: int, j: int| 0 <= i < j < u.children.len() implies text_lt(
            (#[trigger] u.children[i]).0,
            (#[trigger] u.children[j]).0,
        ) by {
            assert(u.children[i].0 == t.children[i].0);
            assert(u.children[j].0 == t.children[j].0);
        }
        assert forall|i: int| 0 <= i < k implies text_lt((#[trigger] u.children[i]).0, name) by {
            assert(u.children[i] == t.children[i]);
        }
        assert forall|i: int| k <= i < u.children.len() implies !text_lt(
            (#[trigger] u.children[i]).0,
            name,
        ) by {
            assert(u.children[i].0 == t.children[i].0);
        }
    } else {
        assert forall|i: int| k < i < u.children.len() implies text_lt(
            name,
            (#[trigger] u.children[i]).0,
        ) by {
            assert(u.children[i] == t.children[i - 1]);
            lemma_text_order_total(t.children[i - 1].0, name);
            if i - 1 > k {
                assert(text_lt(t.children[k].0, t.children[i - 1].0));
            }
        }
        assert forall|i: int, j: int| 0 <= i < j < u.children.len() implies text_lt(
            (#[trigger] u.children[i]).0,
            (#[trigger] u.children[j]).0,
        ) by {
            if j < k {
                assert(u.children[i] == t.children[i]);
                assert(u.children[j] == t.children[j]);
            } else if j == k {
                assert(u.children[i] == t.children[i]);
            } else if i < k {
                assert(u.children[i] == t.children[i]);
                assert(u.children[j] == t.children[j - 1]);
            } else if i == k {
            } else {
                assert(u.children[i] == t.children[i - 1]);
                assert(u.children[j] == t.children[j - 1]);
            }
        }
        assert forall|i: int| 0 <= i < k implies text_lt((#[trigger] u.children[i]).0, name) by {
            assert(u.children[i] == t.children[i]);
        }
        assert forall|i: int| k <= i < u.children.len() implies !text_lt(
            (#[trigger] u.children[i]).0,
            name,
        ) by {
            lemma_text_order_total(u.children[i].0, name);
        }
    }
    assert(u.is_slot(name, k));
    lemma_slot_unique(u, name, k);
}

/// Putting a path into a well-formed tree gives a well-formed tree.
pub proof fn lemma_insert_wf(t: Tree, path: Seq<Seq<char>>)
    requires
        t.wf(),
    ensures
        t.insert(path).wf(),
    decreases path.len(),
{
    if path.len() > 0 {
        let name = path[0];
        let sub = t.child(name);
        let grown = if path.len() == 1 {
            Tree { children: sub.children, is_file: true }
        } else {
            sub.insert(path.skip(1))
        };
        lemma_slot_exists(t, name);
        assert(sub.wf());
        if path.len() > 1 {
            lemma_insert_wf(sub, path.skip(1));
        }
        assert(grown.wf());
        lemma_with_child_wf(t, name, grown);
    }
}

/// Putting a well-formed child into a well-formed tree gives a well-formed
/// tree.
pub proof fn lemma_with_child_wf(t: Tree, name: Seq<char>, sub: Tree)
    requires
        t.wf(),
        sub.wf(),
    ensures
        t.with_child(name, sub).wf(),
{
    lemma_with_child_sorted(t, name, sub);
    lemma_slot_exists(t, name);
    let k = t.slot(name);
    let u = t.with_child(name, sub);
    assert forall|i: int| 0 <= i < u.children.len() implies (#[trigger] u.children[i]).1.wf() by {
        if i == k {
        } else if t.has_child(name) {
            assert(u.children[i] == t.children[i]);
        } else if i < k {
            assert(u.children[i] == t.children[i]);
        } else {
            assert(u.children[i] == t.children[i - 1]);
        }
    }
}

/// A node of the file tree.
pub struct TreeNode {
    children: Vec<Branch>,
    is_file: bool,
}

/// A named child of a node.
struct Branch {
    name: String,
    node: TreeNode,
}

/// The views of the first `n` branches of `s`.
spec fn views_upto(s: Seq<Branch>, n: int) -> Seq<(Seq<char>, Tree)>
    decreases s, n,
{
    if n <= 0 || n > s.len() {
        Seq::empty()
    } else {
        views_upto(s, n - 1).push((s[n - 1].name@, s[n - 1].node.view()))
    }
}

proof fn lemma_views_upto(s: Seq<Branch>, n: int)
    requires
        0 <= n <= s.len(),
    ensures
        views_upto(s, n).len() == n,
        forall|i: int|
            0 <= i < n ==> #[trigger] views_upto(s, n)[i] == (s[i].name@, s[i].node.view()),
    decreases n,
{
    if n > 0 {
        lemma_views_upto(s, n - 1);
        assert(views_upto(s, n) == views_upto(s, n - 1).push(
            (s[n - 1].name@, s[n - 1].node.view()),
        ));
    } else {
        assert(views_upto(s, n) == Seq::<(Seq<char>, Tree)>::empty());
    }
}

impl View for TreeNode {
    type V = Tree;

    closed spec fn view(&self) -> Tree
        decreases self,
    {
        Tree {
            children: views_upto(self.children@, self.children@.len() as int),
            is_file: self.is_file,
        }
    }
}

impl Default for TreeNode {
    fn default() -> (node: TreeNode)
        ensures
            node@ == Tree::empty(),
    {
        TreeNode::new()
    }
}

/// The texts that a list of string slices holds.
pub open spec fn texts_of(components: Seq<&str>) -> Seq<Seq<char>> {
    Seq::new(components.len(), |i: int| components[i]@)
}

impl TreeNode {
    /// What the view of a node is in terms of its fields.
    proof fn lemma_unfold(self)
        ensures
            self@.children.len() == self.children@.len(),
            self@.is_file == self.is_file,
            forall|i: int|
                0 <= i < self.children@.len() ==> #[trigger] self@.children[i] == (
                    self.children@[i].name@,
                    self.children@[i].node@,
                ),
    {
        lemma_views_upto(self.children@, self.children@.len() as int);
    }

    /// A node without children that is no file.
    pub fn new() -> (node: TreeNode)
        ensures
            node@ == Tree::empty(),
    {
        let node = TreeNode { children: Vec::new(), is_file: false };
        proof {
            node.lemma_unfold();
            assert(node@.children =~= Seq::empty());
        }
        node
    }

    /// Finds where the child called `name` stands or would be put, looking
    /// from the end, where a child that arrives in order belongs.
    fn locate(&self, name: &str) -> (k: usize)
        requires
            self@.sorted(),
        ensures
            self@.is_slot(name@, k as int),
            k <= self.children.len(),
    {
        proof {
            self.lemma_unfold();
        }
        let mut k: usize = self.children.len();
        while k > 0 && compare_text(self.children[k - 1].name.as_str(), name) != Relation::Less
            invariant
                k <= self.children.len(),
                self@.children.len() == self.children@.len(),
                forall|i: int|
                    0 <= i < self.children@.len() ==> #[trigger] self@.children[i] == (
                        self.children@[i].name@,
                        self.children@[i].node@,
                    ),
                forall|i: int|
                    k <= i < self@.children.len() ==> !text_lt(
                        (#[trigger] self@.children[i]).0,
                        name@,
                    ),
            decreases k,
        {
            k -= 1;
        }
        proof {
            let t = self@;
            assert forall|i: int| 0 <= i < k implies text_lt((#[trigger] t.children[i]).0, name@) by {
                assert(text_lt(t.children[k - 1].0, name@));
                if i < k - 1 {
                    assert(text_lt(t.children[i].0, t.children[k - 1].0));
                    lemma_text_lt_transitive(t.children[i].0, t.children[k - 1].0, name@);
                }
            }
        }
        k
    }

    /// Puts the path with the given components into the tree below this
    /// node: a node for each component, made where it is missing, the last
    /// one marked as a file. Without components nothing changes.
    pub fn insert(&mut self, components: &[&str])
        requires
            old(self)@.wf(),
        ensures
            final(self)@ == old(self)@.insert(texts_of(components@)),
            final(self)@.wf(),
    {
        assert(texts_of(components@).skip(0) =~= texts_of(components@));
        self.insert_from(components, 0);
    }

    /// Puts in the path made of the components from index `start` on.
    fn insert_from(&mut self, components: &[&str], start: usize)
        requires
            old(self)@.wf(),
            start <= components.len(),
        ensures
            final(self)@ == old(self)@.insert(texts_of(components@).skip(start as int)),
            final(self)@.wf(),
        decreases components.len() - start,
    {
        let ghost before = self@;
        let ghost path = texts_of(components@).skip(start as int);
        if start < components.len() {
            let name: &str = components[start];
            assert(path[0] == name@);
            let k = self.locate(name);
            proof {
                lemma_slot_unique(before, name@, k as int);
                (*self).lemma_unfold();
            }
            let present = k < self.children.len() && compare_text(
                self.children[k].name.as_str(),
                name,
            ) == Relation::Equal;
            assert(present == before.has_child(name@));
            if !present {
                let branch = Branch { name: name.to_owned(), node: TreeNode::new() };
                self.children.insert(k, branch);
            }
            proof {
                (*self).lemma_unfold();
            }
            let ghost sub = before.child(name@);
            assert(self@.children[k as int] == (name@, sub));
            let ghost padded = self@;
            if start + 1 == components.len() {
                self.children[k].node.is_file = true;
            } else {
                assert(path.skip(1) =~= texts_of(components@).skip(start + 1));
                self.children[k].node.insert_from(components, start + 1);
            }
            proof {
                (*self).lemma_unfold();
                let grown = if path.len() == 1 {
                    Tree { children: sub.children, is_file: true }
                } else {
                    sub.insert(path.skip(1))
                };
                assert(self@.children[k as int] == (name@, grown));
                assert(self@.children =~= padded.children.update(k as int, (name@, grown)));
                assert(self@.children =~= before.with_child(name@, grown).children);
                lemma_insert_wf(before, path);
            }
        }
    }
}

/// Appends to `lines` the listing of what is below `node`, each line
/// indented by `prefix`.
pub fn render_tree(node: &TreeNode, prefix: &str, lines: &mut Vec<String>)
    ensures
        final(lines).deep_view() == old(lines).deep_view() + listing(node@, prefix@),
    decreases node,
{
    proof {
        node.lemma_unfold();
        assert(listing_upto(node@.children, prefix@, 0) == Seq::<Seq<char>>::empty());
        assert(lines.deep_view() =~= old(lines).deep_view() + Seq::<Seq<char>>::empty());
    }
    let total = node.children.len();
    let mut idx: usize = 0;
    while idx < total
        invariant
            idx <= total,
            total == node.children.len(),
            node@.children.len() == total,
            forall|i: int|
                0 <= i < node.children@.len() ==> #[trigger] node@.children[i] == (
                    node.children@[i].name@,
                    node.children@[i].node@,
                ),
            lines.deep_view() == old(lines).deep_view() + listing_upto(
                node@.children,
                prefix@,
                idx as int,
            ),
        decreases total - idx,
    {
        let branch = &node.children[idx];
        let is_last = idx + 1 == total;
        let ghost sub = branch.node@;
        let ghost shown = lines.deep_view();
        proof {
            branch.node.lemma_unfold();
            assert(node@.children[idx as int] == (branch.name@, sub));
        }
        let mut line = prefix.to_owned();
        line.append(if is_last { "`-- " } else { "|-- " });
        line.append(branch.name.as_str());
        if !branch.node.children.is_empty() && !branch.node.is_file {
            line.append("/");
        }
        assert(line@ =~= entry_line(prefix@, branch.name@, sub, is_last));
        lines.push(line);
        assert(lines.deep_view() =~= shown + seq![entry_line(prefix@, branch.name@, sub, is_last)]);
        let mut deeper = prefix.to_owned();
        deeper.append(if is_last { "    " } else { "|   " });
        if !branch.node.children.is_empty() {
            render_tree(&branch.node, deeper.as_str(), lines);
        } else {
            assert(listing(sub, deeper@) =~= Seq::<Seq<char>>::empty()) by {
                assert(listing_upto(sub.children, deeper@, 0) == Seq::<Seq<char>>::empty());
            }
            assert(lines.deep_view() =~= lines.deep_view() + listing(sub, deeper@));
        }
        proof {
            let n = idx as int + 1;
            assert(listing_upto(node@.children, prefix@, n) == listing_upto(
                node@.children,
                prefix@,
                n - 1,
            ) + seq![entry_line(prefix@, branch.name@, sub, is_last)] + listing(
                sub,
                prefix@ + continuation(is_last),
            ));
            assert(lines.deep_view() =~= old(lines).deep_view() + listing_upto(
                node@.children,
                prefix@,
                n,
            ));
        }
        idx += 1;
    }
    assert(listing(node@, prefix@) == listing_upto(node@.children, prefix@, total as int));
}

/// The tree of the given files: the empty tree with the path of each put
/// in, one after the other.
pub open spec fn tree_of(files: Seq<FileDump>) -> Tree
    decreases files.len(),
{
    if files.len() == 0 {
        Tree::empty()
    } else {
        tree_of(files.drop_last()).insert(components(files.last().relative_path@))
    }
}

/// The tree of any files is well-formed.
pub proof fn lemma_tree_of_wf(files: Seq<FileDump>)
    ensures
        tree_of(files).wf(),
    decreases files.len(),
{
    if files.len() > 0 {
        lemma_tree_of_wf(files.drop_last());
        lemma_insert_wf(tree_of(files.drop_last()), components(files.last().relative_path@));
    }
}

/// The file tree as it is shown: a line with `.` for the root, then the
/// listing of the tree, the lines joined by line feeds.
pub open spec fn tree_text(tree: Tree) -> Seq<char> {
    joined(seq!["."@] + listing(tree, Seq::empty()))
}

/// Without files the tree is shown as the line of the root alone.
pub proof fn lemma_tree_text_of_no_files()
    ensures
        tree_text(tree_of(Seq::empty())) == "."@,
{
    let lines = seq!["."@] + listing(Tree::empty(), Seq::empty());
    assert(listing_upto(Tree::empty().children, Seq::empty(), 0) == Seq::<Seq<char>>::empty());
    assert(lines =~= seq!["."@]);
    assert(joined(lines) == lines[0]);
}

/// Builds the tree of the given files.
pub fn build_tree(files: &[FileDump]) -> (root: TreeNode)
    ensures
        root@ == tree_of(files@),
        root@.wf(),
{
    let mut root = TreeNode::new();
    assert(files@.take(0) =~= Seq::<FileDump>::empty());
    let mut i: usize = 0;
    while i < files.len()
        invariant
            i <= files.len(),
            root@ == tree_of(files@.take(i as int)),
            root@.wf(),
        decreases files.len() - i,
    {
        let names = split_components(files[i].relative_path.as_str());
        let mut parts: Vec<&str> = Vec::new();
        let mut k: usize = 0;
        while k < names.len()
            invariant
                k <= names.len(),
                parts@.len() == k,
                forall|j: int| 0 <= j < k ==> (#[trigger] parts@[j])@ == names@[j]@,
            decreases names.len() - k,
        {
            parts.push(names[k].as_str());
            k += 1;
        }
        proof {
            assert(texts_of(parts@) =~= names.deep_view());
            assert(files@.take(i + 1).drop_last() =~= files@.take(i as int));
            assert(files@.take(i + 1).last() == files@[i as int]);
        }
        root.insert(parts.as_slice());
        i += 1;
    }
    assert(files@.take(files.len() as int) =~= files@);
    root
}

/// Shows the tree below `root` as text.
pub fn show_tree(root: &TreeNode) -> (text: String)
    ensures
        text@ == tree_text(root@),
{
    let mut lines: Vec<String> = Vec::new();
    lines.push(".".to_owned());
    proof {
        reveal_strlit("");
        assert(lines.deep_view() =~= seq!["."@]);
        assert(""@ =~= Seq::<char>::empty());
    }
    render_tree(root, "", &mut lines);
    join_lines(&lines)
}

/// The file tree of the given files as text.
pub fn build_file_tree(files: &[FileDump]) -> (text: String)
    ensures
        text@ == tree_text(tree_of(files@)),
{
    let root = build_tree(files);
    show_tree(&root)
}

} // verus!
