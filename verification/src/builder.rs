//! Making the tree of rules of a standard: every rule is placed at the end
//! of its path, and its node gets the pattern for the whole path.

use crate::format::{DirStd, Rec};
use crate::order::{is_stable_order, lemma_order_distinct, lists, order_by_key};
use crate::pattern::{pattern_compiles, RegexEq};
use crate::text::{join_texts, joined, lemma_split_nonempty, split, split_text, texts, SEPARATOR};
use crate::tree::{lemma_lookup_found, Node, Tree};
use vstd::prelude::*;

verus! {

/// Why a standard cannot be made into a tree of rules. Each names the rule
/// by its index in the standard.
#[derive(Debug, Clone, Copy, PartialEq, Eq, Structural)]
pub enum BuildError {
    /// The rule has neither variations nor a pattern.
    MissingPattern { record: usize },
    /// The rule has both variations and a pattern.
    AmbiguousPattern { record: usize },
    /// The path of the rule has no segment.
    EmptyPath { record: usize },
    /// The rule's path names the place of a rule placed before it.
    DuplicatePath { record: usize },
    /// The `regex` crate does not take the pattern put together for the rule.
    MalformedPattern { record: usize },
}

/// The segments of the rule's path. The path of a directory ends in the
/// separator; the empty piece behind it is no segment.
pub open spec fn rule_segments(rule: &Rec) -> Seq<Seq<char>> {
    let pieces = split(rule.path@, SEPARATOR);
    if rule.directory {
        pieces.drop_last()
    } else {
        pieces
    }
}

/// What is wrong with the rule itself, if anything.
pub open spec fn rule_flaw(rule: &Rec, record: usize) -> Option<BuildError> {
    if rule.variations is None && rule.regex is None {
        Some(BuildError::MissingPattern { record })
    } else if rule.variations is Some && rule.regex is Some {
        Some(BuildError::AmbiguousPattern { record })
    } else if rule_segments(rule).len() == 0 {
        Some(BuildError::EmptyPath { record })
    } else {
        None
    }
}

/// The flaw of the first rule that has one.
pub open spec fn first_flaw(rules: Seq<Rec>) -> Option<BuildError>
    decreases rules.len(),
{
    if rules.len() == 0 {
        None
    } else {
        match first_flaw(rules.drop_last()) {
            Some(flaw) => Some(flaw),
            None => rule_flaw(&rules.last(), (rules.len() - 1) as usize),
        }
    }
}

/// Whether no two rules name the same place: their paths differ in a segment.
pub open spec fn distinct_places(rules: Seq<Rec>) -> bool {
    forall|a: int, b: int|
        0 <= a < b < rules.len() ==> rule_segments(&#[trigger] rules[a]) != rule_segments(
            &#[trigger] rules[b],
        )
}

/// For every rule the number of its path segments.
pub open spec fn segment_counts(rules: Seq<Rec>) -> Seq<usize> {
    Seq::new(rules.len(), |i: int| rule_segments(&rules[i]).len() as usize)
}

/// The pattern for a whole path: the patterns of its segments with the
/// separator between them, anchored at both ends. It is compiled with
/// letter case ignored.
pub open spec fn anchored(chain: Seq<Seq<char>>) -> Seq<char> {
    "^(?:"@ + joined(chain, SEPARATOR) + ")$"@
}

/// The first flaw is a flaw of a rule of its own: it says nothing of places
/// taken twice or of patterns that do not compile.
pub proof fn lemma_flaw_kinds(rules: Seq<Rec>)
    ensures
        first_flaw(rules) matches Some(flaw) ==> !(flaw is DuplicatePath) && !(flaw
            is MalformedPattern),
    decreases rules.len(),
{
    if rules.len() > 0 {
        lemma_flaw_kinds(rules.drop_last());
    }
}

/// Where no rule has a flaw, none has one.
pub proof fn lemma_no_flaw(rules: Seq<Rec>, i: int)
    requires
        first_flaw(rules) is None,
        0 <= i < rules.len(),
    ensures
        rule_flaw(&rules[i], i as usize) is None,
    decreases rules.len(),
{
    if i < rules.len() - 1 {
        lemma_no_flaw(rules.drop_last(), i);
    }
}

impl Tree {
    /// The segment pattern of the rule that ends at node `i`.
    pub open spec fn own_pattern(&self, std: &DirStd, i: int) -> Option<Seq<char>> {
        match self.nodes@[i].value {
            Some(v) => if v < std.records@.len() {
                std.records@[v as int].segment_pattern()
            } else {
                None
            },
            None => None,
        }
    }

    /// The segment patterns of the rules that end on the way from the root
    /// down to node `i`, that node included. Segments that no rule ends at
    /// add nothing.
    pub open spec fn chain(&self, std: &DirStd, i: int) -> Seq<Seq<char>>
        decreases i,
    {
        let above = match self.nodes@[i].parent {
            Some(p) => if p < i {
                self.chain(std, p as int)
            } else {
                Seq::empty()
            },
            None => Seq::empty(),
        };
        match self.own_pattern(std, i) {
            Some(pattern) => above.push(pattern),
            None => above,
        }
    }

    /// The rules in the order of the nodes listed for them.
    pub open spec fn placed(&self) -> Seq<usize> {
        Seq::new(self.rec_nodes@.len(), |k: int| self.nodes@[self.rec_nodes@[k] as int].value->0)
    }

    /// Whether the `k`-th listed node stands where the path of its rule
    /// leads.
    pub open spec fn leaf_placed(&self, std: &DirStd, k: int) -> bool {
        let n = self.rec_nodes@[k] as int;
        let v = self.nodes@[n].value;
        &&& 0 <= n < self.nodes@.len()
        &&& v is Some
        &&& v->0 < std.records@.len()
        &&& self.node_at(rule_segments(&std.records@[v->0 as int])) == Some(n)
    }

    /// Whether the `k`-th listed node holds the pattern for its whole path.
    pub open spec fn leaf_compiled(&self, std: &DirStd, k: int) -> bool {
        let n = self.rec_nodes@[k] as int;
        &&& self.nodes@[n].path_regex is Some
        &&& self.nodes@[n].path_regex->0@ == anchored(self.chain(std, n))
        &&& self.nodes@[n].path_regex->0.ignores_case()
        &&& pattern_compiles(anchored(self.chain(std, n)), true)
    }

    /// Whether every node that holds a rule is listed.
    pub open spec fn rules_listed(&self) -> bool {
        forall|i: int|
            0 <= i < self.nodes@.len() && (#[trigger] self.nodes@[i]).value is Some ==> exists|
                k: int,
            |
                0 <= k < self.rec_nodes@.len() && #[trigger] self.rec_nodes@[k] == i
    }

    /// Whether every rule of the standard stands at the end of its path: no
    /// rule has a flaw, no two rules name the same place, the rules are
    /// listed by the number of their segments, and the nodes that hold a rule
    /// are the listed ones.
    pub open spec fn holds_rules(&self, std: &DirStd) -> bool {
        &&& self.wf()
        &&& first_flaw(std.records@) is None
        &&& distinct_places(std.records@)
        &&& self.rec_nodes@.len() == std.records@.len()
        &&& is_stable_order(self.placed(), segment_counts(std.records@))
        &&& forall|k: int| 0 <= k < self.rec_nodes@.len() ==> #[trigger] self.leaf_placed(std, k)
        &&& self.rules_listed()
    }

    /// Whether the tree holds the rules of the standard and nothing else:
    /// every rule at the end of its path, the rules listed by the number of
    /// their segments, on each rule's node the pattern made of the segment
    /// patterns of the rules on the way down to it, and no node but the
    /// root that does not lie on the way to a rule.
    pub open spec fn represents(&self, std: &DirStd) -> bool {
        &&& self.holds_rules(std)
        &&& forall|k: int| 0 <= k < self.rec_nodes@.len() ==> #[trigger] self.leaf_compiled(std, k)
        &&& forall|i: int|
            0 <= i < self.nodes@.len() && (#[trigger] self.nodes@[i]).value is None
                ==> self.nodes@[i].path_regex is None
        &&& self.all_on_the_way(
            std,
            self.placed(),
            self.rec_nodes@.len() as int,
            self.nodes@.len() as int,
        )
    }

    /// A node reached along some segments is a node of the tree.
    pub proof fn lemma_node_at_in_tree(&self, segments: Seq<Seq<char>>)
        requires
            self.wf(),
            self.node_at(segments) is Some,
        ensures
            0 <= self.node_at(segments)->0 < self.nodes@.len(),
            segments.len() > 0 ==> self.node_at(segments)->0 > 0,
        decreases segments.len(),
    {
        if segments.len() > 0 {
            let above = self.node_at(segments.drop_last())->0;
            self.lemma_node_at_in_tree(segments.drop_last());
            let entries = self.nodes@[above].children@;
            lemma_lookup_found(entries, segments.last());
            let k = choose|k: int|
                0 <= k < entries.len() && (#[trigger] entries[k]).0@ == segments.last()
                    && entries[k].1 == self.node_at(segments)->0;
            assert(self.node_wf(above));
            assert(self.child_ok(above, k));
        }
    }

    /// Two paths that lead to the same node are the same path.
    pub proof fn lemma_node_at_one_path(&self, first: Seq<Seq<char>>, second: Seq<Seq<char>>)
        requires
            self.wf(),
            self.node_at(first) is Some,
            self.node_at(first) == self.node_at(second),
        ensures
            first == second,
        decreases first.len(),
    {
        let node = self.node_at(first)->0;
        if first.len() == 0 {
            if second.len() > 0 {
                self.lemma_node_at_in_tree(second);
            }
            assert(first =~= second);
        } else if second.len() == 0 {
            self.lemma_node_at_in_tree(first);
        } else {
            let a1 = self.node_at(first.drop_last())->0;
            let a2 = self.node_at(second.drop_last())->0;
            self.lemma_node_at_in_tree(first.drop_last());
            self.lemma_node_at_in_tree(second.drop_last());
            let e1 = self.nodes@[a1].children@;
            let e2 = self.nodes@[a2].children@;
            lemma_lookup_found(e1, first.last());
            lemma_lookup_found(e2, second.last());
            let k1 = choose|k: int|
                0 <= k < e1.len() && (#[trigger] e1[k]).0@ == first.last() && e1[k].1 == node;
            let k2 = choose|k: int|
                0 <= k < e2.len() && (#[trigger] e2[k]).0@ == second.last() && e2[k].1 == node;
            assert(self.node_wf(a1));
            assert(self.node_wf(a2));
            assert(self.child_ok(a1, k1));
            assert(self.child_ok(a2, k2));
            assert(a1 == a2);
            if k1 < k2 {
                assert(e1[k1].1 < e1[k2].1);
            } else if k2 < k1 {
                assert(e1[k2].1 < e1[k1].1);
            }
            assert(first.last() == second.last());
            self.lemma_node_at_one_path(first.drop_last(), second.drop_last());
            assert(first =~= first.drop_last().push(first.last()));
            assert(second =~= second.drop_last().push(second.last()));
        }
    }

    /// The chain of a node rests on the parents and rules of the nodes up to
    /// it alone.
    pub proof fn lemma_chain_same(&self, other: &Tree, std: &DirStd, i: int)
        requires
            0 <= i < self.nodes@.len(),
            self.nodes@.len() == other.nodes@.len(),
            forall|j: int|
                0 <= j <= i ==> (#[trigger] self.nodes@[j]).parent == other.nodes@[j].parent
                    && self.nodes@[j].value == other.nodes@[j].value,
        ensures
            self.chain(std, i) == other.chain(std, i),
        decreases i,
    {
        assert(self.nodes@[i].parent == other.nodes@[i].parent);
        match self.nodes@[i].parent {
            Some(p) => {
                if p < i {
                    self.lemma_chain_same(other, std, p as int);
                }
            },
            None => {},
        }
    }
}

/// The segments of the rule's path, each as a text of its own.
pub fn segments_of(rule: &Rec) -> (segments: Vec<String>)
    ensures
        texts(segments@) == rule_segments(rule),
{
    let mut pieces = split_text(rule.path.as_str(), SEPARATOR);
    if rule.directory {
        let ghost before = pieces@;
        proof {
            lemma_split_nonempty(rule.path@, SEPARATOR);
        }
        pieces.pop();
        assert(texts(pieces@) == texts(before).drop_last());
    }
    pieces
}

/// Looks every rule over for a flaw of its own, and takes its path apart.
/// Hands back the segments of every rule, or the flaw of the first rule that
/// has one.
pub fn measure(std: &DirStd) -> (r: Result<Vec<Vec<String>>, BuildError>)
    ensures
        match r {
            Ok(all) => first_flaw(std.records@) is None && all@.len() == std.records@.len()
                && forall|i: int|
                0 <= i < all@.len() ==> texts((#[trigger] all@[i])@) == rule_segments(
                    &std.records@[i],
                ),
            Err(flaw) => first_flaw(std.records@) == Some(flaw),
        },
{
    let mut all: Vec<Vec<String>> = Vec::new();
    let mut i: usize = 0;
    while i < std.records.len()
        invariant
            i <= std.records.len(),
            all@.len() == i,
            first_flaw(std.records@.take(i as int)) is None,
            forall|j: int|
                0 <= j < i ==> texts((#[trigger] all@[j])@) == rule_segments(&std.records@[j]),
        decreases std.records.len() - i,
    {
        let rule = &std.records[i];
        let ghost upto = std.records@.take(i + 1);
        assert(upto.drop_last() == std.records@.take(i as int));
        assert(upto.last() == std.records@[i as int]);
        let segments = segments_of(rule);
        let flaw = if rule.variations.is_none() && rule.regex.is_none() {
            Some(BuildError::MissingPattern { record: i })
        } else if rule.variations.is_some() && rule.regex.is_some() {
            Some(BuildError::AmbiguousPattern { record: i })
        } else if segments.len() == 0 {
            Some(BuildError::EmptyPath { record: i })
        } else {
            None
        };
        assert(flaw == rule_flaw(rule, i));
        match flaw {
            Some(flaw) => {
                proof {
                    lemma_flaw_stays(std.records@, i + 1);
                }
                return Err(flaw);
            },
            None => {},
        }
        all.push(segments);
        i = i + 1;
    }
    assert(std.records@.take(std.records@.len() as int) == std.records@);
    Ok(all)
}

/// A flaw found among the first rules is the first flaw among all.
pub proof fn lemma_flaw_stays(rules: Seq<Rec>, upto: int)
    requires
        0 <= upto <= rules.len(),
        first_flaw(rules.take(upto)) is Some,
    ensures
        first_flaw(rules) == first_flaw(rules.take(upto)),
    decreases rules.len(),
{
    if upto < rules.len() {
        assert(rules.drop_last().take(upto) == rules.take(upto));
        lemma_flaw_stays(rules.drop_last(), upto);
    } else {
        assert(rules.take(upto) == rules);
    }
}

/// Walks from the root along the segments, adding a node wherever the tree
/// has none yet, and hands back the node at the end.
pub fn walk(tree: &mut Tree, segments: &Vec<String>) -> (node: usize)
    requires
        old(tree).wf(),
    ensures
        final(tree).wf(),
        final(tree).extends(old(tree)),
        final(tree).node_at(texts(segments@)) == Some(node as int),
        node < final(tree).nodes@.len(),
        forall|i: int|
            old(tree).nodes@.len() <= i < final(tree).nodes@.len() ==> final(tree).on_path(
                texts(segments@),
                i,
            ),
{
    let ghost start = *tree;
    let mut node: usize = 0;
    let mut j: usize = 0;
    proof {
        assert(start.node_wf(0));
        assert forall|i: int| 0 <= i < tree.nodes@.len() implies (
        #[trigger] tree.nodes@[i]).children@.take(tree.nodes@[i].children@.len() as int)
            == tree.nodes@[i].children@ by {}
    }
    while j < segments.len()
        invariant
            j <= segments.len(),
            tree.wf(),
            tree.extends(&start),
            node < tree.nodes@.len(),
            tree.node_at(texts(segments@).take(j as int)) == Some(node as int),
            forall|i: int|
                start.nodes@.len() <= i < tree.nodes@.len() ==> tree.on_path(
                    texts(segments@),
                    i,
                ),
        decreases segments.len() - j,
    {
        let ghost before = *tree;
        let ghost sofar = texts(segments@).take(j as int);
        let ghost next = texts(segments@).take(j + 1);
        let child = Node::add_or_get_child(tree, node, segments[j].as_str());
        proof {
            assert(next.drop_last() == sofar);
            assert(next.last() == segments@[j as int]@);
            tree.lemma_grows_node_at(&before, sofar);
            tree.lemma_extends_twice(&before, &start);
            assert forall|i: int| start.nodes@.len() <= i < tree.nodes@.len() implies tree.on_path(
                texts(segments@),
                i,
            ) by {
                if i < before.nodes@.len() {
                    tree.lemma_on_path_grows(&before, texts(segments@), i);
                } else {
                    assert(tree.node_at(texts(segments@).take(j + 1)) == Some(i));
                }
            }
        }
        node = child;
        j = j + 1;
    }
    assert(texts(segments@).take(segments@.len() as int) == texts(segments@));
    node
}

impl Tree {
    /// Whether every node that holds a rule holds one of the standard that
    /// has a segment pattern.
    pub open spec fn rules_usable(&self, std: &DirStd) -> bool {
        forall|i: int|
            0 <= i < self.nodes@.len() && (#[trigger] self.nodes@[i]).value is Some ==> {
                &&& self.nodes@[i].value->0 < std.records@.len()
                &&& std.records@[self.nodes@[i].value->0 as int].segment_pattern() is Some
            }
    }

    /// Puts together the pattern for the whole path down to `leaf`: the
    /// segment patterns of the rules on the way, the outermost first.
    pub fn compose(&self, std: &DirStd, leaf: usize) -> (pattern: String)
        requires
            self.wf(),
            self.rules_usable(std),
            leaf < self.nodes@.len(),
        ensures
            pattern@ == anchored(self.chain(std, leaf as int)),
    {
        let mut names: Vec<String> = Vec::new();
        let mut cur: usize = leaf;
        let mut done = false;
        while !done
            invariant
                self.wf(),
                self.rules_usable(std),
                cur < self.nodes@.len(),
                !done ==> self.chain(std, leaf as int) == self.chain(std, cur as int) + texts(
                    names@,
                ),
                done ==> self.chain(std, leaf as int) == texts(names@),
            decreases
                    (if done {
                        0
                    } else {
                        cur + 1
                    }),
        {
            let ghost below = texts(names@);
            let ghost above = match self.nodes@[cur as int].parent {
                Some(p) => if p < cur {
                    self.chain(std, p as int)
                } else {
                    Seq::empty()
                },
                None => Seq::empty(),
            };
            assert(self.node_wf(cur as int));
            match self.nodes[cur].value {
                Some(v) => {
                    match std.records[v].get_regex_str() {
                        Some(own) => {
                            names.insert(0, own);
                            assert(texts(names@) == seq![own@] + below);
                            assert(above.push(own@) + below == above + (seq![own@] + below));
                        },
                        None => {
                            assert(false);
                        },
                    }
                },
                None => {},
            }
            assert(self.chain(std, leaf as int) == above + texts(names@));
            match self.nodes[cur].parent {
                Some(p) => {
                    cur = p;
                },
                None => {
                    assert(above + texts(names@) == texts(names@));
                    done = true;
                },
            }
        }
        let mut pattern = String::from_str("^(?:");
        let inner = join_texts(&names, SEPARATOR);
        pattern.append(inner.as_str());
        pattern.append(")$");
        pattern
    }
}

/// Hangs the compiled pattern on the node of a rule; where the pattern did
/// not compile, the rule is reported and the node left as it is.
pub fn attach(node: &mut Node, record: usize, compiled: Option<RegexEq>) -> (r: Result<
    (),
    BuildError,
>)
    ensures
        final(node).value == old(node).value,
        final(node).parent == old(node).parent,
        final(node).children == old(node).children,
        match compiled {
            Some(pattern) => r is Ok && final(node).path_regex == Some(pattern),
            None => r == Err::<(), BuildError>(BuildError::MalformedPattern { record })
                && final(node).path_regex == old(node).path_regex,
        },
{
    match compiled {
        Some(pattern) => {
            node.path_regex = Some(pattern);
            Ok(())
        },
        None => Err(BuildError::MalformedPattern { record }),
    }
}

impl Tree {
    /// Whether node `i` is reached from the root along the beginning of the
    /// path.
    pub open spec fn on_path(&self, path: Seq<Seq<char>>, i: int) -> bool {
        exists|depth: int|
            0 <= depth <= path.len() && #[trigger] self.node_at(path.take(depth)) == Some(i)
    }

    /// Whether node `i` lies on the way to one of the first `count` rules
    /// that `order` names.
    pub open spec fn on_the_way(
        &self,
        std: &DirStd,
        order: Seq<usize>,
        count: int,
        i: int,
    ) -> bool {
        exists|k: int|
            0 <= k < count && #[trigger] self.on_path(
                rule_segments(&std.records@[order[k] as int]),
                i,
            )
    }

    /// Whether every node before `limit`, but the root, lies on the way to
    /// one of the first `count` rules that `order` names.
    pub open spec fn all_on_the_way(
        &self,
        std: &DirStd,
        order: Seq<usize>,
        count: int,
        limit: int,
    ) -> bool {
        forall|i: int| 0 < i < limit ==> #[trigger] self.on_the_way(std, order, count, i)
    }

    /// A node on a path stays on it when the tree grows.
    pub proof fn lemma_on_path_grows(&self, old: &Tree, path: Seq<Seq<char>>, i: int)
        requires
            self.grows(old),
            old.on_path(path, i),
        ensures
            self.on_path(path, i),
    {
        let depth = choose|depth: int|
            0 <= depth <= path.len() && #[trigger] old.node_at(path.take(depth)) == Some(i);
        self.lemma_grows_node_at(old, path.take(depth));
    }

    /// Nodes on the way to rules stay so when the tree grows and more rules
    /// are counted.
    pub proof fn lemma_all_on_the_way_grows(
        &self,
        old: &Tree,
        std: &DirStd,
        order: Seq<usize>,
        count: int,
        more: int,
        limit: int,
    )
        requires
            self.grows(old),
            count <= more,
            old.all_on_the_way(std, order, count, limit),
        ensures
            self.all_on_the_way(std, order, more, limit),
    {
        assert forall|i: int| 0 < i < limit implies #[trigger] self.on_the_way(
            std,
            order,
            more,
            i,
        ) by {
            assert(old.on_the_way(std, order, count, i));
            let k = choose|k: int|
                0 <= k < count && #[trigger] old.on_path(
                    rule_segments(&std.records@[order[k] as int]),
                    i,
                );
            self.lemma_on_path_grows(old, rule_segments(&std.records@[order[k] as int]), i);
        }
    }

    /// Whether the first `count` listed nodes stand where the paths of the
    /// rules `order` names lead, each holding its rule, and no other node
    /// holds a rule or a pattern.
    pub open spec fn placed_upto(&self, std: &DirStd, order: Seq<usize>, count: int) -> bool {
        &&& self.wf()
        &&& self.rec_nodes@.len() == count
        &&& forall|k: int|
            0 <= k < count ==> #[trigger] self.leaf_placed(std, k)
                && self.nodes@[self.rec_nodes@[k] as int].value == Some(order[k])
        &&& self.rules_listed()
        &&& forall|i: int|
            0 <= i < self.nodes@.len() ==> (#[trigger] self.nodes@[i]).path_regex is None
    }

    /// Growing the tree keeps the rules placed so far in place.
    pub proof fn lemma_placed_grows(&self, old: &Tree, std: &DirStd, order: Seq<usize>, count: int)
        requires
            old.placed_upto(std, order, count),
            self.wf(),
            self.extends(old),
        ensures
            self.placed_upto(std, order, count),
    {
        assert forall|k: int| 0 <= k < count implies #[trigger] self.leaf_placed(std, k)
            && self.nodes@[self.rec_nodes@[k] as int].value == Some(order[k]) by {
            assert(old.leaf_placed(std, k));
            let n = old.rec_nodes@[k] as int;
            assert(self.nodes@[n].value == old.nodes@[n].value);
            self.lemma_grows_node_at(old, rule_segments(&std.records@[order[k] as int]));
        }
        assert forall|i: int|
            0 <= i < self.nodes@.len() && (#[trigger] self.nodes@[i]).value is Some implies exists|
            k: int,
        |
            0 <= k < self.rec_nodes@.len() && #[trigger] self.rec_nodes@[k] == i by {
            if i < old.nodes@.len() {
                assert(old.nodes@[i].value == self.nodes@[i].value);
            }
        }
        assert forall|i: int| 0 <= i < self.nodes@.len() implies (
        #[trigger] self.nodes@[i]).path_regex is None by {
            if i < old.nodes@.len() {
                assert(old.nodes@[i].path_regex == self.nodes@[i].path_regex);
            }
        }
    }

    /// Whether this tree and `other` have the same nodes with the same
    /// parents, children and rules, and list the same nodes.
    pub open spec fn same_rules(&self, other: &Tree) -> bool {
        &&& self.nodes@.len() == other.nodes@.len()
        &&& self.rec_nodes@ == other.rec_nodes@
        &&& forall|i: int|
            0 <= i < self.nodes@.len() ==> {
                &&& (#[trigger] self.nodes@[i]).parent == other.nodes@[i].parent
                &&& self.nodes@[i].children == other.nodes@[i].children
                &&& self.nodes@[i].value == other.nodes@[i].value
            }
    }

    /// A tree with the nodes, parents, children and rules of a well-formed
    /// tree is well-formed, and its paths lead to the same nodes.
    pub proof fn lemma_same_rules(&self, other: &Tree, std: &DirStd)
        requires
            other.wf(),
            self.same_rules(other),
        ensures
            self.wf(),
            self.grows(other),
            self.rules_listed() == other.rules_listed(),
            self.rules_usable(std) == other.rules_usable(std),
            forall|k: int|
                0 <= k < self.rec_nodes@.len() ==> #[trigger] self.leaf_placed(std, k)
                    == other.leaf_placed(std, k),
            forall|i: int|
                0 <= i < self.nodes@.len() ==> #[trigger] self.chain(std, i) == other.chain(
                    std,
                    i,
                ),
            self.placed() == other.placed(),
    {
        assert forall|i: int| 0 <= i < self.nodes@.len() implies #[trigger] self.node_wf(i) by {
            assert(other.node_wf(i));
            assert(self.nodes@[i].children == other.nodes@[i].children);
            assert forall|k: int| 0 <= k < self.nodes@[i].children@.len() implies self.child_ok(
                i,
                k,
            ) by {
                assert(other.child_ok(i, k));
            }
        }
        assert forall|i: int| 0 <= i < other.nodes@.len() implies {
            &&& (#[trigger] self.nodes@[i]).parent == other.nodes@[i].parent
            &&& other.nodes@[i].children@.len() <= self.nodes@[i].children@.len()
            &&& self.nodes@[i].children@.take(other.nodes@[i].children@.len() as int)
                == other.nodes@[i].children@
        } by {
            assert(self.nodes@[i].children == other.nodes@[i].children);
            assert(self.nodes@[i].children@.take(self.nodes@[i].children@.len() as int)
                == self.nodes@[i].children@);
        }
        assert(self.wf()) by {
            assert forall|k: int| 0 <= k < self.rec_nodes@.len() implies (
            #[trigger] self.rec_nodes@[k]) < self.nodes@.len()
                && self.nodes@[self.rec_nodes@[k] as int].value is Some by {
                assert(other.rec_nodes@[k] < other.nodes@.len());
            }
        }
        assert forall|k: int| 0 <= k < self.rec_nodes@.len() implies #[trigger] self.leaf_placed(
            std,
            k,
        ) == other.leaf_placed(std, k) by {
            let n = self.rec_nodes@[k] as int;
            assert(other.rec_nodes@[k] < other.nodes@.len());
            assert(self.nodes@[n].value == other.nodes@[n].value);
            if self.nodes@[n].value is Some && self.nodes@[n].value->0 < std.records@.len() {
                let path = rule_segments(&std.records@[self.nodes@[n].value->0 as int]);
                if other.node_at(path) is Some {
                    self.lemma_grows_node_at(other, path);
                }
                if self.node_at(path) is Some {
                    other.lemma_same_rules_back(self, path);
                }
            }
        }
        assert forall|i: int| 0 <= i < self.nodes@.len() implies #[trigger] self.chain(std, i)
            == other.chain(std, i) by {
            self.lemma_chain_same(other, std, i);
        }
        assert(self.placed() =~= other.placed()) by {
            assert forall|k: int| 0 <= k < self.rec_nodes@.len() implies self.placed()[k]
                == other.placed()[k] by {
                assert(other.rec_nodes@[k] < other.nodes@.len());
                assert(self.nodes@[self.rec_nodes@[k] as int].value
                    == other.nodes@[self.rec_nodes@[k] as int].value);
            }
        }
        assert(self.rules_listed() == other.rules_listed()) by {
            if other.rules_listed() {
                assert forall|i: int|
                    0 <= i < self.nodes@.len() && (#[trigger] self.nodes@[i]).value is Some implies exists|
                    k: int,
                |
                    0 <= k < self.rec_nodes@.len() && #[trigger] self.rec_nodes@[k] == i by {
                    assert(other.nodes@[i].value is Some);
                }
            }
            if self.rules_listed() {
                assert forall|i: int|
                    0 <= i < other.nodes@.len() && (#[trigger] other.nodes@[i]).value is Some implies exists|
                    k: int,
                |
                    0 <= k < other.rec_nodes@.len() && #[trigger] other.rec_nodes@[k] == i by {
                    assert(self.nodes@[i].value is Some);
                }
            }
        }
        assert(self.rules_usable(std) == other.rules_usable(std)) by {
            if other.rules_usable(std) {
                assert forall|i: int|
                    0 <= i < self.nodes@.len() && (#[trigger] self.nodes@[i]).value is Some implies {
                    &&& self.nodes@[i].value->0 < std.records@.len()
                    &&& std.records@[self.nodes@[i].value->0 as int].segment_pattern() is Some
                } by {
                    assert(other.nodes@[i].value is Some);
                }
            }
            if self.rules_usable(std) {
                assert forall|i: int|
                    0 <= i < other.nodes@.len() && (#[trigger] other.nodes@[i]).value is Some implies {
                    &&& other.nodes@[i].value->0 < std.records@.len()
                    &&& std.records@[other.nodes@[i].value->0 as int].segment_pattern() is Some
                } by {
                    assert(self.nodes@[i].value is Some);
                }
            }
        }
    }

    /// Paths lead to the same nodes in two trees with the same children.
    pub proof fn lemma_same_rules_back(&self, other: &Tree, segments: Seq<Seq<char>>)
        requires
            other.same_rules(self),
            other.node_at(segments) is Some,
        ensures
            self.node_at(segments) == other.node_at(segments),
        decreases segments.len(),
    {
        if segments.len() > 0 {
            self.lemma_same_rules_back(other, segments.drop_last());
            let above = other.node_at(segments.drop_last())->0;
            if 0 <= above < other.nodes@.len() {
                assert(other.nodes@[above].children == self.nodes@[above].children);
            }
        }
    }
}

/// Makes the tree of the rules of a standard.
///
/// Every rule is looked over first; the first rule with a flaw of its own is
/// reported. The rules are then placed by the number of their path segments,
/// rules of equal length in their own order; a rule whose place is taken is
/// reported. Last, each rule's node gets the pattern for its whole path; a
/// rule whose pattern the `regex` crate does not take is reported.
pub fn create(std: &DirStd) -> (r: Result<Tree, BuildError>)
    ensures
        r is Ok <==> first_flaw(std.records@) is None && distinct_places(std.records@)
            && patterns_compile(std.records@),
        r matches Err(BuildError::MalformedPattern { record }) ==> !pattern_compiles(
            rule_pattern(std.records@, record as int),
            true,
        ),
        match r {
            Ok(tree) => tree.represents(std) && forall|k: int|
                0 <= k < std.records@.len() ==> #[trigger] tree.leaf_by_rules(std, k),
            Err(error) => match first_flaw(std.records@) {
                Some(flaw) => error == flaw,
                None => match error {
                    BuildError::DuplicatePath { record } => record < std.records@.len() && exists|
                        other: int,
                    |
                        0 <= other < std.records@.len() && other != record && rule_segments(
                            &#[trigger] std.records@[other],
                        ) == rule_segments(&std.records@[record as int]),
                    BuildError::MalformedPattern { record } => record < std.records@.len()
                        && distinct_places(std.records@),
                    _ => false,
                },
            },
        },
{
    let all = match measure(std) {
        Ok(all) => all,
        Err(flaw) => {
            proof {
                lemma_flaw_kinds(std.records@);
            }
            return Err(flaw);
        },
    };
    let mut lens: Vec<usize> = Vec::new();
    let mut i: usize = 0;
    while i < all.len()
        invariant
            i <= all.len(),
            all@.len() == std.records@.len(),
            lens@.len() == i,
            forall|j: int|
                0 <= j < all@.len() ==> texts((#[trigger] all@[j])@) == rule_segments(
                    &std.records@[j],
                ),
            forall|j: int|
                0 <= j < i ==> (#[trigger] lens@[j]) == rule_segments(&std.records@[j]).len(),
        decreases all.len() - i,
    {
        assert(texts(all@[i as int]@).len() == all@[i as int]@.len());
        lens.push(all[i].len());
        i = i + 1;
    }
    assert(lens@ =~= segment_counts(std.records@));
    let order = order_by_key(&lens);
    let mut tree = Tree::new();
    let mut k: usize = 0;
    proof {
        assert(tree.rules_listed());
    }
    while k < order.len()
        invariant
            k <= order.len(),
            order@.len() == std.records@.len(),
            all@.len() == std.records@.len(),
            first_flaw(std.records@) is None,
            is_stable_order(order@, segment_counts(std.records@)),
            forall|j: int|
                0 <= j < all@.len() ==> texts((#[trigger] all@[j])@) == rule_segments(
                    &std.records@[j],
                ),
            tree.placed_upto(std, order@, k as int),
            tree.all_on_the_way(std, order@, k as int, tree.nodes@.len() as int),
        decreases order.len() - k,
    {
        let record = order[k];
        let ghost path = rule_segments(&std.records@[record as int]);
        let ghost before = tree;
        let node = walk(&mut tree, &all[record]);
        proof {
            tree.lemma_placed_grows(&before, std, order@, k as int);
        }
        if tree.nodes[node].value.is_some() {
            proof {
                let j = choose|j: int|
                    0 <= j < tree.rec_nodes@.len() && #[trigger] tree.rec_nodes@[j] == node;
                assert(tree.leaf_placed(std, j));
                let other = order@[j];
                tree.lemma_node_at_one_path(path, rule_segments(&std.records@[other as int]));
                if other == record {
                    lemma_order_distinct(order@, segment_counts(std.records@), j, k as int);
                }
                assert(rule_segments(&std.records@[other as int]) == rule_segments(
                    &std.records@[record as int],
                ));
                if other < record {
                    assert(rule_segments(&std.records@[other as int]) == rule_segments(
                        &std.records@[record as int],
                    ));
                } else {
                    assert(rule_segments(&std.records@[record as int]) == rule_segments(
                        &std.records@[other as int],
                    ));
                }
                assert(!distinct_places(std.records@));
            }
            return Err(BuildError::DuplicatePath { record });
        }
        let ghost walked = tree;
        tree.nodes[node].value = Some(record);
        tree.rec_nodes.push(node);
        proof {
            assert forall|i: int| 0 <= i < tree.nodes@.len() implies {
                &&& (#[trigger] tree.nodes@[i]).parent == walked.nodes@[i].parent
                &&& tree.nodes@[i].children == walked.nodes@[i].children
                &&& tree.nodes@[i].path_regex == walked.nodes@[i].path_regex
                &&& i != node ==> tree.nodes@[i].value == walked.nodes@[i].value
            } by {}
            assert forall|i: int| 0 <= i < tree.nodes@.len() implies #[trigger] tree.node_wf(i) by {
                assert(walked.node_wf(i));
                assert forall|c: int| 0 <= c < tree.nodes@[i].children@.len() implies tree.child_ok(
                    i,
                    c,
                ) by {
                    assert(walked.child_ok(i, c));
                }
            }
            assert forall|j: int| 0 <= j < tree.rec_nodes@.len() implies (
            #[trigger] tree.rec_nodes@[j]) < tree.nodes@.len()
                && tree.nodes@[tree.rec_nodes@[j] as int].value is Some by {
                if j < k {
                    assert(walked.leaf_placed(std, j));
                }
            }
            assert(tree.wf());
            assert forall|i: int| 0 <= i < walked.nodes@.len() implies {
                &&& (#[trigger] tree.nodes@[i]).parent == walked.nodes@[i].parent
                &&& walked.nodes@[i].children@.len() <= tree.nodes@[i].children@.len()
                &&& tree.nodes@[i].children@.take(walked.nodes@[i].children@.len() as int)
                    == walked.nodes@[i].children@
            } by {
                assert(tree.nodes@[i].children == walked.nodes@[i].children);
                assert(tree.nodes@[i].children@.take(tree.nodes@[i].children@.len() as int)
                    == tree.nodes@[i].children@);
            }
            assert(tree.grows(&walked));
            assert forall|j: int| 0 <= j < k + 1 implies #[trigger] tree.leaf_placed(std, j)
                && tree.nodes@[tree.rec_nodes@[j] as int].value == Some(order@[j]) by {
                if j < k {
                    assert(walked.leaf_placed(std, j));
                    assert(walked.rec_nodes@[j] != node);
                    tree.lemma_grows_node_at(
                        &walked,
                        rule_segments(&std.records@[order@[j] as int]),
                    );
                } else {
                    tree.lemma_grows_node_at(&walked, path);
                }
            }
            assert forall|i: int|
                0 <= i < tree.nodes@.len() && (#[trigger] tree.nodes@[i]).value is Some implies exists|
                j: int,
            |
                0 <= j < tree.rec_nodes@.len() && #[trigger] tree.rec_nodes@[j] == i by {
                if i == node {
                    assert(tree.rec_nodes@[k as int] == i);
                } else {
                    assert(walked.nodes@[i].value is Some);
                    let j = choose|j: int|
                        0 <= j < walked.rec_nodes@.len() && #[trigger] walked.rec_nodes@[j] == i;
                    assert(tree.rec_nodes@[j] == i);
                }
            }
            assert(walked.grows(&before));
            walked.lemma_all_on_the_way_grows(
                &before,
                std,
                order@,
                k as int,
                k as int,
                before.nodes@.len() as int,
            );
            assert forall|i: int| 0 < i < tree.nodes@.len() implies #[trigger] tree.on_the_way(
                std,
                order@,
                k + 1,
                i,
            ) by {
                if i < before.nodes@.len() {
                    assert(walked.on_the_way(std, order@, k as int, i));
                    let w = choose|w: int|
                        0 <= w < k && #[trigger] walked.on_path(
                            rule_segments(&std.records@[order@[w] as int]),
                            i,
                        );
                    tree.lemma_on_path_grows(
                        &walked,
                        rule_segments(&std.records@[order@[w] as int]),
                        i,
                    );
                } else {
                    assert(walked.on_path(path, i));
                    tree.lemma_on_path_grows(&walked, path, i);
                    assert(tree.on_path(rule_segments(&std.records@[order@[k as int] as int]), i));
                }
            }
        }
        k = k + 1;
    }
    let ghost built = tree;
    proof {
        assert(tree.placed() =~= order@) by {
            assert forall|j: int| 0 <= j < order@.len() implies tree.placed()[j] == order@[j] by {
                assert(tree.leaf_placed(std, j));
            }
        }
        assert(distinct_places(std.records@)) by {
            assert forall|a: int, b: int| 0 <= a < b < std.records@.len() implies rule_segments(
                &#[trigger] std.records@[a],
            ) != rule_segments(&#[trigger] std.records@[b]) by {
                assert(lists(order@, a));
                assert(lists(order@, b));
                let ka = choose|ka: int| 0 <= ka < order@.len() && #[trigger] order@[ka] == a;
                let kb = choose|kb: int| 0 <= kb < order@.len() && #[trigger] order@[kb] == b;
                assert(tree.leaf_placed(std, ka));
                assert(tree.leaf_placed(std, kb));
            }
        }
        assert(tree.rules_usable(std)) by {
            assert forall|i: int|
                0 <= i < tree.nodes@.len() && (#[trigger] tree.nodes@[i]).value is Some implies {
                &&& tree.nodes@[i].value->0 < std.records@.len()
                &&& std.records@[tree.nodes@[i].value->0 as int].segment_pattern() is Some
            } by {
                let j = choose|j: int|
                    0 <= j < tree.rec_nodes@.len() && #[trigger] tree.rec_nodes@[j] == i;
                assert(tree.leaf_placed(std, j));
                lemma_no_flaw(std.records@, tree.nodes@[i].value->0 as int);
            }
        }
        assert(built.holds_rules(std));
    }
    let mut k: usize = 0;
    while k < tree.rec_nodes.len()
        invariant
            k <= tree.rec_nodes@.len(),
            built.holds_rules(std),
            built.placed_upto(std, order@, order@.len() as int),
            built.all_on_the_way(std, order@, order@.len() as int, built.nodes@.len() as int),
            built.rules_usable(std),
            built.placed() == order@,
            is_stable_order(order@, segment_counts(std.records@)),
            order@.len() == std.records@.len(),
            distinct_places(std.records@),
            first_flaw(std.records@) is None,
            tree.same_rules(&built),
            forall|j: int| 0 <= j < k ==> #[trigger] tree.leaf_compiled(std, j),
            forall|i: int|
                0 <= i < tree.nodes@.len() && (#[trigger] tree.nodes@[i]).value is None
                    ==> tree.nodes@[i].path_regex is None,
        decreases tree.rec_nodes@.len() - k,
    {
        let ghost before = tree;
        proof {
            tree.lemma_same_rules(&built, std);
            assert(built.leaf_placed(std, k as int));
        }
        let node = tree.rec_nodes[k];
        let record = match tree.nodes[node].value {
            Some(v) => v,
            None => {
                assert(false);
                0
            },
        };
        let text = tree.compose(std, node);
        proof {
            assert(tree.holds_rules(std)) by {
                assert forall|j: int| 0 <= j < tree.rec_nodes@.len() implies #[trigger] tree.leaf_placed(
                    std,
                    j,
                ) by {
                    assert(built.leaf_placed(std, j));
                }
            }
            assert(tree.leaf_placed(std, k as int));
            tree.lemma_chain_by_rules(std, rule_segments(&std.records@[record as int]));
            assert(text@ == rule_pattern(std.records@, record as int));
        }
        let compiled = RegexEq::parse_ignoring_case(text.as_str());
        match attach(&mut tree.nodes[node], record, compiled) {
            Ok(()) => {},
            Err(error) => {
                assert(!pattern_compiles(rule_pattern(std.records@, record as int), true));
                assert(!patterns_compile(std.records@));
                return Err(error);
            },
        }
        proof {
            assert forall|i: int| 0 <= i < tree.nodes@.len() implies {
                &&& (#[trigger] tree.nodes@[i]).parent == before.nodes@[i].parent
                &&& tree.nodes@[i].children == before.nodes@[i].children
                &&& tree.nodes@[i].value == before.nodes@[i].value
                &&& i != node ==> tree.nodes@[i].path_regex == before.nodes@[i].path_regex
            } by {}
            assert(tree.same_rules(&built));
            assert forall|j: int| 0 <= j < k + 1 implies #[trigger] tree.leaf_compiled(std, j) by {
                let n = tree.rec_nodes@[j] as int;
                assert(built.leaf_placed(std, j));
                tree.lemma_chain_same(&before, std, n);
                if j < k {
                    assert(before.leaf_compiled(std, j));
                    if n == node {
                        assert(built.placed()[j] == built.placed()[k as int]);
                        lemma_order_distinct(order@, segment_counts(std.records@), j, k as int);
                    }
                }
            }
        }
        k = k + 1;
    }
    proof {
        tree.lemma_same_rules(&built, std);
        assert forall|j: int| 0 <= j < tree.rec_nodes@.len() implies #[trigger] tree.leaf_placed(
            std,
            j,
        ) by {
            assert(built.leaf_placed(std, j));
        }
        tree.lemma_all_on_the_way_grows(
            &built,
            std,
            order@,
            order@.len() as int,
            order@.len() as int,
            built.nodes@.len() as int,
        );
        assert(tree.represents(std));
        assert forall|j: int| 0 <= j < std.records@.len() implies #[trigger] tree.leaf_by_rules(
            std,
            j,
        ) by {
            tree.lemma_pattern_by_rules(std, j);
        }
        assert forall|r: int| 0 <= r < std.records@.len() implies pattern_compiles(
            #[trigger] rule_pattern(std.records@, r),
            true,
        ) by {
            assert(lists(tree.placed(), r));
            let j = choose|j: int| 0 <= j < tree.placed().len() && #[trigger] tree.placed()[j] == r;
            tree.lemma_pattern_by_rules(std, j);
        }
    }
    Ok(tree)
}

/// The rule whose path leads to that place, if there is one.
pub open spec fn rule_at(rules: Seq<Rec>, place: Seq<Seq<char>>) -> Option<int> {
    if exists|v: int| 0 <= v < rules.len() && rule_segments(&#[trigger] rules[v]) == place {
        Some(choose|v: int| 0 <= v < rules.len() && rule_segments(&#[trigger] rules[v]) == place)
    } else {
        None
    }
}

/// The segment patterns of the rules whose paths lead to the places on the
/// way to `place`, that place included, the outermost first.
pub open spec fn prefix_chain(rules: Seq<Rec>, place: Seq<Seq<char>>) -> Seq<Seq<char>>
    decreases place.len(),
{
    if place.len() == 0 {
        Seq::empty()
    } else {
        let above = prefix_chain(rules, place.drop_last());
        match rule_at(rules, place) {
            Some(v) => match rules[v].segment_pattern() {
                Some(pattern) => above.push(pattern),
                None => above,
            },
            None => above,
        }
    }
}

/// The pattern for the whole path of a rule, as the rules alone give it:
/// the segment pattern of every rule whose path is the beginning of this
/// rule's path, then its own, with the separator between them, anchored.
pub open spec fn rule_pattern(rules: Seq<Rec>, record: int) -> Seq<char> {
    anchored(prefix_chain(rules, rule_segments(&rules[record])))
}

/// Whether the `regex` crate takes the pattern of every rule.
pub open spec fn patterns_compile(rules: Seq<Rec>) -> bool {
    forall|k: int|
        0 <= k < rules.len() ==> pattern_compiles(#[trigger] rule_pattern(rules, k), true)
}

impl Tree {
    /// In the tree of a standard, the chain of a node is made of the segment
    /// patterns of the rules whose paths lead to the places on the way to
    /// that node.
    pub proof fn lemma_chain_by_rules(&self, std: &DirStd, place: Seq<Seq<char>>)
        requires
            self.holds_rules(std),
            self.node_at(place) is Some,
        ensures
            self.chain(std, self.node_at(place)->0) == prefix_chain(std.records@, place),
        decreases place.len(),
    {
        let rules = std.records@;
        let n = self.node_at(place)->0;
        self.lemma_node_at_in_tree(place);
        assert(self.node_wf(n));
        let held = self.nodes@[n].value;
        if held is Some {
            assert(self.rules_listed());
            let k = choose|k: int|
                0 <= k < self.rec_nodes@.len() && #[trigger] self.rec_nodes@[k] == n;
            assert(self.leaf_placed(std, k));
            let v = held->0 as int;
            lemma_no_flaw(rules, v);
            self.lemma_node_at_one_path(place, rule_segments(&rules[v]));
            assert(rule_segments(&rules[v]) == place);
            let w = rule_at(rules, place)->0;
            if w < v {
                assert(rule_segments(&rules[w]) != rule_segments(&rules[v]));
            } else if v < w {
                assert(rule_segments(&rules[v]) != rule_segments(&rules[w]));
            }
            assert(w == v);
        } else {
            if rule_at(rules, place) is Some {
                let w = rule_at(rules, place)->0;
                assert(lists(self.placed(), w));
                let k = choose|k: int|
                    0 <= k < self.placed().len() && #[trigger] self.placed()[k] == w;
                assert(self.leaf_placed(std, k));
                assert(false);
            }
        }
        if place.len() == 0 {
            assert(n == 0);
            assert(held is None);
        } else {
            let above = self.node_at(place.drop_last())->0;
            self.lemma_node_at_in_tree(place.drop_last());
            let entries = self.nodes@[above].children@;
            lemma_lookup_found(entries, place.last());
            let e = choose|e: int|
                0 <= e < entries.len() && (#[trigger] entries[e]).0@ == place.last()
                    && entries[e].1 == n;
            assert(self.node_wf(above));
            assert(self.child_ok(above, e));
            self.lemma_chain_by_rules(std, place.drop_last());
        }
    }

    /// Whether the `k`-th listed node holds the pattern that the rules alone
    /// give for its rule.
    pub open spec fn leaf_by_rules(&self, std: &DirStd, k: int) -> bool {
        let n = self.rec_nodes@[k] as int;
        &&& 0 <= self.placed()[k] < std.records@.len()
        &&& self.nodes@[n].path_regex is Some
        &&& self.nodes@[n].path_regex->0@ == rule_pattern(std.records@, self.placed()[k] as int)
    }

    /// In the tree of a standard, the pattern on the node of a rule is the
    /// pattern that the rules alone give for it.
    pub proof fn lemma_pattern_by_rules(&self, std: &DirStd, k: int)
        requires
            self.represents(std),
            0 <= k < self.rec_nodes@.len(),
        ensures
            0 <= self.placed()[k] < std.records@.len(),
            self.nodes@[self.rec_nodes@[k] as int].path_regex is Some,
            self.nodes@[self.rec_nodes@[k] as int].path_regex->0@ == rule_pattern(
                std.records@,
                self.placed()[k] as int,
            ),
            self.nodes@[self.rec_nodes@[k] as int].path_regex->0.ignores_case(),
            pattern_compiles(rule_pattern(std.records@, self.placed()[k] as int), true),
    {
        assert(self.leaf_placed(std, k));
        assert(self.leaf_compiled(std, k));
        self.lemma_chain_by_rules(std, rule_segments(&std.records@[self.placed()[k] as int]));
    }
}

} // verus!
