//! The rules of a standard as a tree that mirrors the directories their paths
//! name, with one anchored path pattern on every node that a rule ends at.

use crate::pattern::RegexEq;
use crate::text::{join_texts, joined, push_char, same_text, texts};
use vstd::prelude::*;

pub use crate::builder::{create, BuildError};

verus! {

/// One path segment in the tree of rules. Nodes live in the arena of a
/// [`Tree`] and name each other by their index in it.
#[derive(Debug)]
pub struct Node {
    /// The index, in the standard, of the rule that ends at this segment.
    pub value: Option<usize>,
    /// The pattern for the whole path from the root down to this segment.
    pub path_regex: Option<RegexEq>,
    /// The segments directly below, each with the name it is found under.
    pub children: Vec<(String, usize)>,
    /// The segment directly above; the root has none.
    pub parent: Option<usize>,
}

/// The tree of rules: an arena of nodes with the root at index 0, and the
/// nodes that a rule ends at in the order in which the rules were placed.
#[derive(Debug)]
pub struct Tree {
    pub nodes: Vec<Node>,
    pub rec_nodes: Vec<usize>,
}

/// The node that the entries list under `name`, if any: the first such entry.
pub open spec fn lookup(entries: Seq<(String, usize)>, name: Seq<char>) -> Option<int>
    decreases entries.len(),
{
    if entries.len() == 0 {
        None
    } else {
        match lookup(entries.drop_last(), name) {
            Some(found) => Some(found),
            None => if entries.last().0@ == name {
                Some(entries.last().1 as int)
            } else {
                None
            },
        }
    }
}

/// A node that `lookup` finds is listed in an entry of that name.
pub proof fn lemma_lookup_found(entries: Seq<(String, usize)>, name: Seq<char>)
    ensures
        match lookup(entries, name) {
            Some(found) => exists|k: int|
                0 <= k < entries.len() && (#[trigger] entries[k]).0@ == name && entries[k].1
                    == found,
            None => forall|k: int| 0 <= k < entries.len() ==> (#[trigger] entries[k]).0@ != name,
        },
    decreases entries.len(),
{
    if entries.len() > 0 {
        let before = entries.drop_last();
        lemma_lookup_found(before, name);
        match lookup(before, name) {
            Some(found) => {
                let k = choose|k: int|
                    0 <= k < before.len() && (#[trigger] before[k]).0@ == name && before[k].1
                        == found;
                assert(entries[k] == before[k]);
            },
            None => {
                if entries.last().0@ == name {
                    assert(entries[entries.len() - 1] == entries.last());
                } else {
                    assert forall|k: int| 0 <= k < entries.len() implies (#[trigger] entries[k]).0@
                        != name by {
                        if k < before.len() {
                            assert(entries[k] == before[k]);
                        }
                    }
                }
            },
        }
    }
}

impl Node {
    /// A node without parent, children or pattern, for the given rule.
    pub fn from(value: Option<usize>) -> (node: Node)
        ensures
            node.value == value,
            node.path_regex is None,
            node.children@.len() == 0,
            node.parent is None,
    {
        Node { value, path_regex: None, children: Vec::new(), parent: None }
    }

    /// A node without parent, children, pattern or rule.
    pub fn new() -> (node: Node)
        ensures
            node.value is None,
            node.path_regex is None,
            node.children@.len() == 0,
            node.parent is None,
    {
        Node::from(None)
    }
}

impl Default for Node {
    fn default() -> (node: Node)
        ensures
            node.value is None,
            node.path_regex is None,
            node.children@.len() == 0,
            node.parent is None,
    {
        Node::new()
    }
}

impl Tree {
    /// Whether entry `k` of node `i` names a later node that has `i` as its parent.
    pub open spec fn child_ok(&self, i: int, k: int) -> bool {
        let c = self.nodes@[i].children@[k].1 as int;
        i < c < self.nodes@.len() && self.nodes@[c].parent == Some(i as usize)
    }

    /// Whether node `i` fits into the tree: its parent comes before it, its
    /// children after it, no two children share a name, and the children
    /// stand in the order of their indices.
    pub open spec fn node_wf(&self, i: int) -> bool {
        let node = self.nodes@[i];
        &&& i == 0 ==> node.parent is None
        &&& i > 0 ==> node.parent is Some && node.parent->0 < i
        &&& forall|k: int| 0 <= k < node.children@.len() ==> self.child_ok(i, k)
        &&& forall|k1: int, k2: int|
            0 <= k1 < k2 < node.children@.len() ==> (#[trigger] node.children@[k1]).0@ != (
            #[trigger] node.children@[k2]).0@ && node.children@[k1].1 < node.children@[k2].1
    }

    /// Whether the arena is a tree rooted at index 0, and every listed node
    /// holds a rule.
    pub open spec fn wf(&self) -> bool {
        &&& self.nodes@.len() >= 1
        &&& forall|i: int| 0 <= i < self.nodes@.len() ==> #[trigger] self.node_wf(i)
        &&& forall|k: int|
            0 <= k < self.rec_nodes@.len() ==> (#[trigger] self.rec_nodes@[k]) < self.nodes@.len()
                && self.nodes@[self.rec_nodes@[k] as int].value is Some
    }

    /// The child of node `i` that goes by `name`.
    pub open spec fn child_of(&self, i: int, name: Seq<char>) -> Option<int> {
        lookup(self.nodes@[i].children@, name)
    }

    /// The node reached from the root along the given segments.
    pub open spec fn node_at(&self, segments: Seq<Seq<char>>) -> Option<int>
        decreases segments.len(),
    {
        if segments.len() == 0 {
            Some(0)
        } else {
            match self.node_at(segments.drop_last()) {
                Some(above) => if 0 <= above < self.nodes@.len() {
                    self.child_of(above, segments.last())
                } else {
                    None
                },
                None => None,
            }
        }
    }

    /// A tree of just the root.
    pub fn new() -> (tree: Tree)
        ensures
            tree.wf(),
            tree.nodes@.len() == 1,
            tree.nodes@[0].value is None,
            tree.nodes@[0].path_regex is None,
            tree.nodes@[0].children@.len() == 0,
            tree.rec_nodes@.len() == 0,
    {
        let mut nodes: Vec<Node> = Vec::new();
        nodes.push(Node::new());
        let tree = Tree { nodes, rec_nodes: Vec::new() };
        assert(tree.node_wf(0));
        tree
    }

    /// The child of node `i` that goes by `name`.
    pub fn find_child(&self, i: usize, name: &str) -> (found: Option<usize>)
        requires
            i < self.nodes@.len(),
        ensures
            match found {
                Some(c) => self.child_of(i as int, name@) == Some(c as int),
                None => self.child_of(i as int, name@) is None,
            },
    {
        let entries = &self.nodes[i].children;
        let mut k: usize = 0;
        while k < entries.len()
            invariant
                k <= entries.len(),
                entries@ == self.nodes@[i as int].children@,
                lookup(entries@.take(k as int), name@) is None,
            decreases entries.len() - k,
        {
            assert(entries@.take(k + 1).drop_last() == entries@.take(k as int));
            if same_text(entries[k].0.as_str(), name) {
                assert(lookup(entries@.take(k + 1), name@) == Some(entries@[k as int].1 as int));
                proof {
                    Self::lemma_lookup_prefix(entries@, name@, k + 1);
                }
                return Some(entries[k].1);
            }
            k = k + 1;
        }
        assert(entries@.take(entries.len() as int) == entries@);
        None
    }

    /// What `lookup` finds among the first entries it finds among all.
    pub proof fn lemma_lookup_prefix(entries: Seq<(String, usize)>, name: Seq<char>, upto: int)
        requires
            0 <= upto <= entries.len(),
            lookup(entries.take(upto), name) is Some,
        ensures
            lookup(entries, name) == lookup(entries.take(upto), name),
        decreases entries.len(),
    {
        if upto < entries.len() {
            let before = entries.drop_last();
            assert(before.take(upto) == entries.take(upto));
            Self::lemma_lookup_prefix(before, name, upto);
        } else {
            assert(entries.take(upto) == entries);
        }
    }
}

impl Tree {
    /// Whether this tree has the shape of `old`, grown: the nodes of `old` are
    /// all here, each with its parent, and with its children first among the
    /// children it has now.
    pub open spec fn grows(&self, old: &Tree) -> bool {
        &&& old.nodes@.len() <= self.nodes@.len()
        &&& forall|i: int|
            0 <= i < old.nodes@.len() ==> {
                &&& (#[trigger] self.nodes@[i]).parent == old.nodes@[i].parent
                &&& old.nodes@[i].children@.len() <= self.nodes@[i].children@.len()
                &&& self.nodes@[i].children@.take(old.nodes@[i].children@.len() as int)
                    == old.nodes@[i].children@
            }
    }

    /// Whether this tree is `old` grown, with nothing else changed: the nodes
    /// of `old` keep their rule and pattern, the nodes that came since have
    /// neither, and the same nodes are listed.
    pub open spec fn extends(&self, old: &Tree) -> bool {
        &&& self.grows(old)
        &&& self.rec_nodes@ == old.rec_nodes@
        &&& forall|i: int|
            0 <= i < old.nodes@.len() ==> {
                &&& (#[trigger] self.nodes@[i]).value == old.nodes@[i].value
                &&& self.nodes@[i].path_regex == old.nodes@[i].path_regex
            }
        &&& forall|i: int|
            old.nodes@.len() <= i < self.nodes@.len() ==> (#[trigger] self.nodes@[i]).value is None
                && self.nodes@[i].path_regex is None
    }

    /// Growing twice is growing.
    pub proof fn lemma_extends_twice(&self, middle: &Tree, old: &Tree)
        requires
            self.extends(middle),
            middle.extends(old),
        ensures
            self.extends(old),
    {
        assert forall|i: int| 0 <= i < old.nodes@.len() implies {
            &&& (#[trigger] self.nodes@[i]).parent == old.nodes@[i].parent
            &&& old.nodes@[i].children@.len() <= self.nodes@[i].children@.len()
            &&& self.nodes@[i].children@.take(old.nodes@[i].children@.len() as int)
                == old.nodes@[i].children@
            &&& self.nodes@[i].value == old.nodes@[i].value
            &&& self.nodes@[i].path_regex == old.nodes@[i].path_regex
        } by {
            let a = old.nodes@[i].children@;
            let b = middle.nodes@[i].children@;
            let c = self.nodes@[i].children@;
            assert(middle.nodes@[i].value == old.nodes@[i].value);
            assert(self.nodes@[i].value == middle.nodes@[i].value);
            assert(c.take(b.len() as int) == b);
            assert(b.take(a.len() as int) == a);
            assert(c.take(a.len() as int) == c.take(b.len() as int).take(a.len() as int));
        }
        assert forall|i: int| old.nodes@.len() <= i < self.nodes@.len() implies (
        #[trigger] self.nodes@[i]).value is None && self.nodes@[i].path_regex is None by {
            if i < middle.nodes@.len() {
                assert(middle.nodes@[i].value is None);
                assert(self.nodes@[i].value == middle.nodes@[i].value);
            }
        }
    }

    /// A node that was reached along some segments is still reached along
    /// them after the tree has grown.
    pub proof fn lemma_grows_node_at(&self, old: &Tree, segments: Seq<Seq<char>>)
        requires
            self.grows(old),
            old.node_at(segments) is Some,
        ensures
            self.node_at(segments) == old.node_at(segments),
        decreases segments.len(),
    {
        if segments.len() > 0 {
            self.lemma_grows_node_at(old, segments.drop_last());
            let above = old.node_at(segments.drop_last())->0;
            let was = old.nodes@[above].children@;
            let now = self.nodes@[above].children@;
            assert(self.nodes@[above].parent == old.nodes@[above].parent);
            assert(now.take(was.len() as int) == was);
            Self::lemma_lookup_prefix(now, segments.last(), was.len() as int);
        }
    }
}

impl Node {
    /// The child of `parent` that goes by `path_part`; where there is none
    /// yet, a new node without a rule is put at the end of the arena and
    /// listed last among the children of `parent`.
    pub fn add_or_get_child(tree: &mut Tree, parent: usize, path_part: &str) -> (child: usize)
        requires
            old(tree).wf(),
            parent < old(tree).nodes@.len(),
        ensures
            final(tree).wf(),
            final(tree).extends(old(tree)),
            final(tree).child_of(parent as int, path_part@) == Some(child as int),
            parent < child < final(tree).nodes@.len(),
            match old(tree).child_of(parent as int, path_part@) {
                Some(c) => child == c && *final(tree) == *old(tree),
                None => {
                    &&& child == old(tree).nodes@.len()
                    &&& final(tree).nodes@.len() == child + 1
                    &&& final(tree).nodes@[child as int].children@.len() == 0
                    &&& final(tree).nodes@[child as int].parent == Some(parent)
                    &&& final(tree).nodes@[parent as int].children@.drop_last() == old(
                        tree,
                    ).nodes@[parent as int].children@
                    &&& final(tree).nodes@[parent as int].children@.last().0@ == path_part@
                    &&& final(tree).nodes@[parent as int].children@.last().1 == child
                    &&& forall|i: int|
                        0 <= i < old(tree).nodes@.len() && i != parent ==> (
                        #[trigger] final(tree).nodes@[i]) == old(tree).nodes@[i]
                },
            },
    {
        match tree.find_child(parent, path_part) {
            Some(c) => {
                proof {
                    lemma_lookup_found(tree.nodes@[parent as int].children@, path_part@);
                    let k = choose|k: int|
                        0 <= k < tree.nodes@[parent as int].children@.len() && (
                        #[trigger] tree.nodes@[parent as int].children@[k]).0@ == path_part@
                            && tree.nodes@[parent as int].children@[k].1 == c;
                    assert(tree.node_wf(parent as int));
                    assert(tree.child_ok(parent as int, k));
                    assert forall|i: int| 0 <= i < tree.nodes@.len() implies (
                    #[trigger] tree.nodes@[i]).children@.take(
                        tree.nodes@[i].children@.len() as int,
                    ) == tree.nodes@[i].children@ by {}
                }
                c
            },
            None => {
                let ghost before = *tree;
                let child = tree.nodes.len();
                let mut node = Node::new();
                node.parent = Some(parent);
                tree.nodes.push(node);
                let name = path_part.to_owned();
                tree.nodes[parent].children.push((name, child));
                proof {
                    let was = before.nodes@[parent as int].children@;
                    let now = tree.nodes@[parent as int].children@;
                    assert(now == was.push((name, child)));
                    assert(now.drop_last() == was);
                    assert(lookup(now, path_part@) == Some(child as int));
                    lemma_lookup_found(was, path_part@);
                    assert forall|i: int| 0 <= i < before.nodes@.len() implies {
                        &&& (#[trigger] tree.nodes@[i]).value == before.nodes@[i].value
                        &&& tree.nodes@[i].path_regex == before.nodes@[i].path_regex
                        &&& tree.nodes@[i].parent == before.nodes@[i].parent
                        &&& before.nodes@[i].children@.len() <= tree.nodes@[i].children@.len()
                        &&& tree.nodes@[i].children@.take(before.nodes@[i].children@.len() as int)
                            == before.nodes@[i].children@
                    } by {
                        if i == parent {
                            assert(now.take(was.len() as int) == was);
                        } else {
                            assert(tree.nodes@[i] == before.nodes@[i]);
                            assert(tree.nodes@[i].children@.take(
                                tree.nodes@[i].children@.len() as int,
                            ) == tree.nodes@[i].children@);
                        }
                    }
                    assert forall|i: int| 0 <= i < tree.nodes@.len() implies #[trigger] tree.node_wf(
                        i,
                    ) by {
                        if i == child {
                            assert(tree.nodes@[i].children@.len() == 0);
                        } else {
                            assert(before.node_wf(i));
                            let kids = tree.nodes@[i].children@;
                            assert forall|k: int| 0 <= k < kids.len() implies tree.child_ok(
                                i,
                                k,
                            ) by {
                                if i == parent && k == was.len() {
                                } else {
                                    assert(before.child_ok(i, k));
                                    assert(kids[k] == before.nodes@[i].children@[k]);
                                }
                            }
                            assert forall|k1: int, k2: int| 0 <= k1 < k2 < kids.len() implies (
                            #[trigger] kids[k1]).0@ != (#[trigger] kids[k2]).0@ && kids[k1].1
                                < kids[k2].1 by {
                                if i == parent {
                                    if k2 == was.len() {
                                        assert(kids[k1] == was[k1]);
                                        assert(before.child_ok(i, k1));
                                    } else {
                                        assert(kids[k1] == was[k1]);
                                        assert(kids[k2] == was[k2]);
                                    }
                                }
                            }
                        }
                    }
                }
                child
            },
        }
    }
}

impl Tree {
    /// The tree below node `i` as an indented list: a line for the node
    /// under the given name, then the lists of its children, each one step
    /// of `tab` further in, with a line break between them.
    pub open spec fn printed(
        &self,
        i: int,
        name: Seq<char>,
        indent: Seq<char>,
        tab: Seq<char>,
    ) -> Seq<char>
        decreases self.nodes@.len() - i, 1nat, 0nat,
    {
        indent + "- "@ + name + seq!['\n'] + joined(
            self.printed_children(i, self.nodes@[i].children@.len(), indent + tab, tab),
            '\n',
        )
    }

    /// The lists of the first `upto` children of node `i`.
    pub open spec fn printed_children(
        &self,
        i: int,
        upto: nat,
        indent: Seq<char>,
        tab: Seq<char>,
    ) -> Seq<Seq<char>>
        decreases self.nodes@.len() - i, 0nat, upto,
    {
        if upto == 0 {
            Seq::empty()
        } else {
            let entry = self.nodes@[i].children@[upto - 1];
            let list = if i < entry.1 < self.nodes@.len() {
                self.printed(entry.1 as int, entry.0@, indent, tab)
            } else {
                Seq::empty()
            };
            self.printed_children(i, (upto - 1) as nat, indent, tab).push(list)
        }
    }
}

impl Node {
    /// Writes the tree below node `id` as an indented list, the node itself
    /// under the given name.
    pub fn print_part(tree: &Tree, id: usize, name: &str, indent: &str, tab: &str) -> (text: String)
        requires
            tree.wf(),
            id < tree.nodes@.len(),
        ensures
            text@ == tree.printed(id as int, name@, indent@, tab@),
        decreases tree.nodes@.len() - id,
    {
        let mut child_indent = String::from_str(indent);
        child_indent.append(tab);
        let children = &tree.nodes[id].children;
        let mut lists: Vec<String> = Vec::new();
        let mut k: usize = 0;
        while k < children.len()
            invariant
                k <= children@.len(),
                tree.wf(),
                id < tree.nodes@.len(),
                children@ == tree.nodes@[id as int].children@,
                child_indent@ == indent@ + tab@,
                texts(lists@) == tree.printed_children(id as int, k as nat, child_indent@, tab@),
            decreases children@.len() - k,
        {
            assert(tree.node_wf(id as int));
            assert(tree.child_ok(id as int, k as int));
            let ghost before = texts(lists@);
            let list = Node::print_part(
                tree,
                children[k].1,
                children[k].0.as_str(),
                child_indent.as_str(),
                tab,
            );
            lists.push(list);
            assert(texts(lists@) =~= before.push(list@));
            k = k + 1;
        }
        let mut text = String::from_str(indent);
        text.append("- ");
        text.append(name);
        push_char(&mut text, '\n');
        let below = join_texts(&lists, '\n');
        text.append(below.as_str());
        text
    }

    /// Writes the tree below node `id` as an indented list, two blanks to a
    /// step.
    pub fn print(tree: &Tree, id: usize, name: &str) -> (text: String)
        requires
            tree.wf(),
            id < tree.nodes@.len(),
        ensures
            text@ == tree.printed(id as int, name@, ""@, "  "@),
    {
        Node::print_part(tree, id, name, "", "  ")
    }
}

} // verus!
