//! Trees of nested zones.
//!
//! A node holds a zone and, as its children, the zones that lie inside it.
//! A zone that lies inside one of the children goes below that child.

use crate::seqs::{
    first, is_first, lemma_filter_one, lemma_filter_skip_step, lemma_first_is, lemma_first_none,
};
use crate::text::{decimal, u64_to_string};
use crate::zone::Zone;
use vstd::prelude::*;
use vstd::string::*;

verus! {

/// Timestamps are shown without what lies above this.
pub const TIME_CUT_OFF: u64 = 10_000_000;

/// A zone with the zones nested below it.  `len` counts the nodes that were
/// pushed below this one, at any depth.
#[derive(Debug, Eq)]
pub struct Node {
    pub len: usize,
    pub zone: Zone,
    pub children: Vec<Node>,
}

impl PartialEq for Node {
    /// Two nodes are the same when their zones are.
    fn eq(&self, other: &Self) -> (r: bool) {
        self.zone == other.zone
    }
}

impl vstd::std_specs::cmp::PartialEqSpecImpl for Node {
    open spec fn obeys_eq_spec() -> bool {
        true
    }

    open spec fn eq_spec(&self, other: &Self) -> bool {
        self.zone.same(&other.zone)
    }
}

/// From which side of a zone a distance is measured.
pub enum TimeCalculation {
    Start,
    End,
}

/// A node as a value: its counter, its zone and its children in order.
pub struct Tree {
    pub len: nat,
    pub zone: Zone,
    pub children: Seq<Tree>,
}

/// The test "this node's zone contains `zone`".
pub open spec fn holds_zone(zone: Zone) -> spec_fn(Tree) -> bool {
    |c: Tree| c.zone.spec_contains(&zone)
}

/// The test "this node or one below it is called `name`".
pub open spec fn holds_name(name: Seq<char>) -> spec_fn(Tree) -> bool {
    |c: Tree| c.contains_zone(name)
}

impl Tree {
    /// A node with nothing below it.
    pub open spec fn leaf(zone: Zone) -> Tree {
        Tree { len: 0, zone, children: Seq::empty() }
    }

    /// The tree after `node` was pushed: below the first child whose zone
    /// contains the node's zone, or else as the last child.  The counter of
    /// every node on the way down goes up by one.
    pub open spec fn push(self, node: Tree) -> Tree
        decreases self,
    {
        match first(self.children, holds_zone(node.zone)) {
            Some(i) => if 0 <= i < self.children.len() {
                Tree {
                    len: self.len + 1,
                    zone: self.zone,
                    children: self.children.update(i, self.children[i].push(node)),
                }
            } else {
                self
            },
            None => Tree {
                len: self.len + 1,
                zone: self.zone,
                children: self.children.push(node),
            },
        }
    }

    /// No counter on the way down to where `node` goes is at its limit.
    pub open spec fn can_push(self, node: Tree) -> bool
        decreases self,
    {
        self.len < usize::MAX && match first(self.children, holds_zone(node.zone)) {
            Some(i) => 0 <= i < self.children.len() && self.children[i].can_push(node),
            None => true,
        }
    }

    /// This node or one below it is called `name`.
    pub open spec fn contains_zone(self, name: Seq<char>) -> bool
        decreases self,
    {
        self.zone.name@ == name || exists|i: int|
            0 <= i < self.children.len() && (#[trigger] self.children[i]).contains_zone(name)
    }

    /// The first node called `name`, going down before going right.
    pub open spec fn child_by_name(self, name: Seq<char>) -> Option<Tree>
        decreases self,
    {
        if self.zone.name@ == name {
            Some(self)
        } else {
            match first(self.children, holds_name(name)) {
                Some(i) => if 0 <= i < self.children.len() {
                    self.children[i].child_by_name(name)
                } else {
                    None
                },
                None => None,
            }
        }
    }

    /// The nodes called `name`, from left to right, without what lies below
    /// a node of that name.
    pub open spec fn nodes_by_name(self, name: Seq<char>) -> Seq<Tree>
        decreases self,
    {
        if self.zone.name@ == name {
            seq![self]
        } else {
            Self::nodes_by_name_in(self.children, name)
        }
    }

    /// The nodes called `name` in each of `trees`, from left to right.
    pub open spec fn nodes_by_name_in(trees: Seq<Tree>, name: Seq<char>) -> Seq<Tree>
        decreases trees,
    {
        if trees.len() == 0 {
            Seq::empty()
        } else {
            Self::nodes_by_name_in(trees.drop_last(), name) + trees.last().nodes_by_name(name)
        }
    }
}

/// The nodes behind the references, as values.
pub open spec fn ref_trees(nodes: Seq<&Node>) -> Seq<Tree> {
    nodes.map_values(|n: &Node| n.tree())
}

/// The durations of the zones of `trees`, added up.
pub open spec fn durations(trees: Seq<Tree>) -> int
    decreases trees.len(),
{
    if trees.len() == 0 {
        0
    } else {
        durations(trees.drop_last()) + trees.last().zone.duration
    }
}

/// Durations add up over concatenation and are never negative, and a
/// beginning of a list has no more than the list.
pub proof fn lemma_durations(a: Seq<Tree>, b: Seq<Tree>)
    ensures
        durations(a + b) == durations(a) + durations(b),
        durations(a) >= 0,
        durations(b) >= 0,
    decreases b.len(),
{
    lemma_durations_nonnegative(a);
    lemma_durations_nonnegative(b);
    if b.len() == 0 {
        assert(a + b =~= a);
    } else {
        lemma_durations(a, b.drop_last());
        assert((a + b).drop_last() =~= a + b.drop_last());
    }
}

/// Durations never add up to less than nothing.
pub proof fn lemma_durations_nonnegative(a: Seq<Tree>)
    ensures
        durations(a) >= 0,
    decreases a.len(),
{
    if a.len() > 0 {
        lemma_durations_nonnegative(a.drop_last());
    }
}

/// The first `i` of a list of nodes last no longer than all of them.
pub proof fn lemma_durations_take(a: Seq<Tree>, i: int)
    requires
        0 <= i <= a.len(),
    ensures
        0 <= durations(a.take(i)) <= durations(a),
{
    assert(a.take(i) + a.skip(i) =~= a);
    lemma_durations(a.take(i), a.skip(i));
}

/// A name is found below a node exactly when the search for its first node
/// succeeds, and the node found carries the name.
pub proof fn lemma_child_by_name(tree: Tree, name: Seq<char>)
    ensures
        tree.child_by_name(name) is Some <==> tree.contains_zone(name),
        tree.child_by_name(name) matches Some(c) ==> c.zone.name@ == name,
    decreases tree,
{
    if tree.zone.name@ != name {
        lemma_first_none(tree.children, holds_name(name));
        match first(tree.children, holds_name(name)) {
            Some(i) => {
                lemma_child_by_name(tree.children[i], name);
            },
            None => {},
        }
    }
}

/// Whether `zone` lies on the measured side of `child`: wholly before it
/// when measuring from the start, wholly after it when measuring from the
/// end.
pub open spec fn is_beside(side: TimeCalculation, zone: Zone, child: Zone) -> bool {
    match side {
        TimeCalculation::Start => zone.spec_completes_by(&child),
        TimeCalculation::End => child.spec_completes_by(&zone),
    }
}

/// One of `set` has the same zone as `n`.
pub open spec fn holds_same(set: Seq<Tree>, n: Tree) -> bool {
    exists|k: int| 0 <= k < set.len() && (#[trigger] set[k]).zone.same(&n.zone)
}

/// `set` with `n` added, if `n` lies beside `child` and no node with the
/// same zone is in the set yet.
pub open spec fn gather_one(set: Seq<Tree>, n: Tree, child: Zone, side: TimeCalculation) -> Seq<
    Tree,
> {
    if is_beside(side, n.zone, child) && !holds_same(set, n) {
        set.push(n)
    } else {
        set
    }
}

/// `set` with each of `candidates` added in turn.
pub open spec fn gather(
    set: Seq<Tree>,
    candidates: Seq<Tree>,
    child: Zone,
    side: TimeCalculation,
) -> Seq<Tree>
    decreases candidates.len(),
{
    if candidates.len() == 0 {
        set
    } else {
        gather_one(
            gather(set, candidates.drop_last(), child, side),
            candidates.last(),
            child,
            side,
        )
    }
}

/// Adding two lists of candidates in turn is adding the one list that they
/// make together.
pub proof fn lemma_gather_concat(
    set: Seq<Tree>,
    a: Seq<Tree>,
    b: Seq<Tree>,
    child: Zone,
    side: TimeCalculation,
)
    ensures
        gather(set, a + b, child, side) == gather(gather(set, a, child, side), b, child, side),
    decreases b.len(),
{
    if b.len() == 0 {
        assert(a + b =~= a);
    } else {
        lemma_gather_concat(set, a, b.drop_last(), child, side);
        assert((a + b).drop_last() =~= a + b.drop_last());
    }
}

/// The self times of `trees`, added up.
pub open spec fn self_times(trees: Seq<Tree>) -> int
    decreases trees.len(),
{
    if trees.len() == 0 {
        0
    } else {
        self_times(trees.drop_last()) + trees.last().self_time()
    }
}

/// Every one of `trees` lasts at least as long as its children together.
pub open spec fn self_times_fit(trees: Seq<Tree>) -> bool {
    forall|k: int| 0 <= k < trees.len() ==> (#[trigger] trees[k]).self_time() >= 0
}

/// Where every self time fits, the first `i` of them add up to no more than
/// all of them.
pub proof fn lemma_self_times_take(trees: Seq<Tree>, i: int)
    requires
        self_times_fit(trees),
        0 <= i <= trees.len(),
    ensures
        0 <= self_times(trees.take(i)) <= self_times(trees),
    decreases trees.len() - i,
{
    if i == trees.len() {
        assert(trees.take(i) =~= trees);
        lemma_self_times_nonnegative(trees);
    } else {
        lemma_self_times_take(trees, i + 1);
        assert(trees.take(i + 1).drop_last() =~= trees.take(i));
        assert(trees.take(i + 1).last() == trees[i]);
        lemma_self_times_nonnegative(trees.take(i));
    }
}

/// Where every self time fits, they never add up to less than nothing.
pub proof fn lemma_self_times_nonnegative(trees: Seq<Tree>)
    requires
        self_times_fit(trees),
    ensures
        self_times(trees) >= 0,
    decreases trees.len(),
{
    if trees.len() > 0 {
        assert(trees.last() == trees[trees.len() - 1]);
        assert forall|k: int| 0 <= k < trees.drop_last().len() implies (
        #[trigger] trees.drop_last()[k]).self_time() >= 0 by {
            assert(trees.drop_last()[k] == trees[k]);
        }
        lemma_self_times_nonnegative(trees.drop_last());
    }
}

impl Tree {
    /// The node's duration less the durations of its children.
    pub open spec fn self_time(self) -> int {
        self.zone.duration - durations(self.children)
    }

    /// The nodes called by one of `ignores`: for each name in turn, the
    /// nodes of that name from left to right.
    pub open spec fn named_nodes(self, ignores: Seq<String>) -> Seq<Tree>
        decreases ignores.len(),
    {
        if ignores.len() == 0 {
            Seq::empty()
        } else {
            self.named_nodes(ignores.drop_last()) + self.nodes_by_name(ignores.last()@)
        }
    }

    /// The node's duration less the durations of the nodes called by one of
    /// `ignores`.
    pub open spec fn total_time(self, ignores: Seq<String>) -> int {
        self.zone.duration - durations(self.named_nodes(ignores))
    }

    /// The nodes whose time does not count toward the way to `child`: the
    /// nodes called by one of `ignores` and the children of this node, as
    /// far as they lie beside `child`, each zone once.
    pub open spec fn ignored_beside(
        self,
        child: Zone,
        ignores: Seq<String>,
        side: TimeCalculation,
    ) -> Seq<Tree> {
        gather(
            gather(Seq::empty(), self.named_nodes(ignores), child, side),
            self.children,
            child,
            side,
        )
    }

    /// From this node's start to the start of `child`, or from the end of
    /// `child` to this node's end.
    pub open spec fn side_distance(self, child: Zone, side: TimeCalculation) -> int {
        match side {
            TimeCalculation::Start => crate::zones::distance(
                self.zone.time_start as int,
                child.time_start as int,
            ),
            TimeCalculation::End => crate::zones::distance(
                self.zone.time_end as int,
                child.time_end as int,
            ),
        }
    }

    /// The time from this node's boundary to the first node called `name`,
    /// less the self times of the nodes that do not count, or nothing where
    /// no node is called `name`.
    pub open spec fn time_to(
        self,
        name: Seq<char>,
        ignores: Seq<String>,
        side: TimeCalculation,
    ) -> Option<int> {
        match self.child_by_name(name) {
            None => None,
            Some(child) => Some(
                self.side_distance(child.zone, side) - self_times(
                    self.ignored_beside(child.zone, ignores, side),
                ),
            ),
        }
    }

    /// The time to `name` can be computed: every node that does not count
    /// lasts as long as its children together, and together they take no
    /// more than the distance.
    pub open spec fn time_to_fits(
        self,
        name: Seq<char>,
        ignores: Seq<String>,
        side: TimeCalculation,
    ) -> bool {
        self.child_by_name(name) matches Some(child) ==> self_times_fit(
            self.ignored_beside(child.zone, ignores, side),
        ) && self_times(self.ignored_beside(child.zone, ignores, side)) <= self.side_distance(
            child.zone,
            side,
        )
    }
}

impl Node {
    /// The node as a value.
    pub open spec fn tree(&self) -> Tree
        decreases self,
    {
        Tree { len: self.len as nat, zone: self.zone, children: Self::trees(self.children@) }
    }

    /// The nodes as values.
    pub open spec fn trees(nodes: Seq<Node>) -> Seq<Tree>
        decreases nodes,
    {
        if nodes.len() == 0 {
            Seq::empty()
        } else {
            Self::trees(nodes.drop_last()).push(nodes.last().tree())
        }
    }

    /// `trees` goes node by node.
    pub proof fn lemma_trees(nodes: Seq<Node>)
        ensures
            Self::trees(nodes).len() == nodes.len(),
            forall|i: int| 0 <= i < nodes.len() ==> (#[trigger] Self::trees(nodes)[i]) == nodes[i].tree(),
        decreases nodes.len(),
    {
        if nodes.len() > 0 {
            Self::lemma_trees(nodes.drop_last());
        }
    }

    /// A node with nothing below it.
    pub fn new(zone: Zone) -> (node: Node)
        ensures
            node.tree() == Tree::leaf(zone),
    {
        let node = Node { len: 0, zone, children: Vec::new() };
        assert(Self::trees(node.children@) =~= Seq::<Tree>::empty());
        node
    }

    /// Whether this node or one below it is called `name`.
    pub fn contains_zone(&self, name: &str) -> (found: bool)
        ensures
            found == self.tree().contains_zone(name@),
        decreases self,
    {
        let wanted = name.to_owned();
        if self.zone.name == wanted {
            return true;
        }
        proof {
            Self::lemma_trees(self.children@);
        }
        let mut i: usize = 0;
        while i < self.children.len()
            invariant
                i <= self.children.len(),
                self.tree().children.len() == self.children.len(),
                forall|j: int|
                    0 <= j < self.children.len() ==> (#[trigger] self.tree().children[j])
                        == self.children[j].tree(),
                forall|j: int|
                    0 <= j < i ==> !(#[trigger] self.tree().children[j]).contains_zone(name@),
            decreases self.children.len() - i,
        {
            if self.children[i].contains_zone(name) {
                assert(self.tree().children[i as int].contains_zone(name@));
                return true;
            }
            i += 1;
        }
        false
    }

    /// Puts `node` below the first child whose zone contains its zone, or
    /// else makes it the last child.
    pub fn push(&mut self, node: Node)
        requires
            old(self).tree().can_push(node.tree()),
        ensures
            final(self).tree() == old(self).tree().push(node.tree()),
        decreases *old(self),
    {
        proof {
            Self::lemma_trees(self.children@);
            lemma_first_none(self.tree().children, holds_zone(node.zone));
        }
        let ghost before = self.tree();
        let ghost pred = holds_zone(node.zone);
        self.len += 1;

        let mut container: Option<usize> = None;
        let mut idx: usize = 0;
        while idx < self.children.len()
            invariant_except_break
                container is None,
                forall|j: int| 0 <= j < idx ==> !pred(#[trigger] before.children[j]),
            invariant
                idx <= self.children.len(),
                before.children.len() == self.children.len(),
                pred == holds_zone(node.zone),
                forall|j: int|
                    0 <= j < self.children.len() ==> (#[trigger] before.children[j])
                        == self.children[j].tree(),
            ensures
                container matches Some(i) ==> is_first(before.children, pred, i as int),
                container is None ==> forall|j: int|
                    0 <= j < before.children.len() ==> !pred(#[trigger] before.children[j]),
            decreases self.children.len() - idx,
        {
            if self.children[idx].zone.contains(&node.zone) {
                container = Some(idx);
                break ;
            }
            idx += 1;
        }

        match container {
            Some(idx) => {
                proof {
                    lemma_first_is(before.children, pred, idx as int);
                }
                let ghost pushed = node.tree();
                self.children[idx].push(node);
                proof {
                    Self::lemma_trees(self.children@);
                    assert(Self::trees(self.children@) =~= before.children.update(
                        idx as int,
                        before.children[idx as int].push(pushed),
                    ));
                }
            },
            None => {
                let ghost pushed = node.tree();
                self.children.push(node);
                proof {
                    Self::lemma_trees(self.children@);
                    assert(Self::trees(self.children@) =~= before.children.push(pushed));
                }
            },
        }
    }

    /// The first node called `name`, going down before going right.
    pub fn child_by_name(&self, name: &str) -> (found: Option<&Node>)
        ensures
            match found {
                Some(n) => self.tree().child_by_name(name@) == Some(n.tree()),
                None => self.tree().child_by_name(name@) is None,
            },
        decreases self,
    {
        let wanted = name.to_owned();
        if self.zone.name == wanted {
            return Some(self);
        }
        proof {
            Self::lemma_trees(self.children@);
            lemma_first_none(self.tree().children, holds_name(name@));
        }
        let ghost pred = holds_name(name@);
        let mut i: usize = 0;
        while i < self.children.len()
            invariant
                i <= self.children.len(),
                self.zone.name@ != name@,
                pred == holds_name(name@),
                self.tree().children.len() == self.children.len(),
                forall|j: int|
                    0 <= j < self.children.len() ==> (#[trigger] self.tree().children[j])
                        == self.children[j].tree(),
                forall|j: int| 0 <= j < i ==> !pred(#[trigger] self.tree().children[j]),
            decreases self.children.len() - i,
        {
            let child = &self.children[i];
            if child.contains_zone(name) {
                proof {
                    assert(pred(self.tree().children[i as int]));
                    lemma_first_is(self.tree().children, pred, i as int);
                }
                return child.child_by_name(name);
            }
            i += 1;
        }
        None
    }

    /// The nodes called `name`, from left to right, without what lies below
    /// a node of that name.
    pub fn nodes_by_name(&self, name: &str) -> (found: Vec<&Node>)
        ensures
            ref_trees(found@) == self.tree().nodes_by_name(name@),
        decreases self,
    {
        let wanted = name.to_owned();
        let mut found: Vec<&Node> = Vec::new();
        if self.zone.name == wanted {
            found.push(self);
            assert(ref_trees(found@) =~= seq![self.tree()]);
            return found;
        }
        proof {
            Self::lemma_trees(self.children@);
        }
        let mut i: usize = 0;
        assert(ref_trees(found@) =~= Seq::<Tree>::empty());
        assert(self.tree().children.take(0) =~= Seq::<Tree>::empty());
        while i < self.children.len()
            invariant
                i <= self.children.len(),
                self.tree().children.len() == self.children.len(),
                forall|j: int|
                    0 <= j < self.children.len() ==> (#[trigger] self.tree().children[j])
                        == self.children[j].tree(),
                ref_trees(found@) == Tree::nodes_by_name_in(
                    self.tree().children.take(i as int),
                    name@,
                ),
            decreases self.children.len() - i,
        {
            let mut below = self.children[i].nodes_by_name(name);
            proof {
                assert(self.tree().children.take(i + 1).drop_last() =~= self.tree().children.take(
                    i as int,
                ));
                assert(ref_trees(found@ + below@) =~= ref_trees(found@) + ref_trees(below@));
            }
            found.append(&mut below);
            i += 1;
        }
        assert(self.tree().children.take(i as int) =~= self.tree().children);
        found
    }

    /// The node's duration less the durations of its children.
    pub fn calc_self_time(&self) -> (time: u64)
        requires
            self.tree().self_time() >= 0,
        ensures
            time == self.tree().self_time(),
    {
        proof {
            Self::lemma_trees(self.children@);
        }
        let ghost below = self.tree().children;
        let mut dur: u64 = self.zone.duration;
        let mut i: usize = 0;
        assert(below.take(0) =~= Seq::<Tree>::empty());
        while i < self.children.len()
            invariant
                i <= self.children.len(),
                below == self.tree().children,
                below.len() == self.children.len(),
                forall|j: int|
                    0 <= j < self.children.len() ==> (#[trigger] below[j])
                        == self.children[j].tree(),
                self.zone.duration - durations(below) >= 0,
                dur == self.zone.duration - durations(below.take(i as int)),
            decreases self.children.len() - i,
        {
            proof {
                assert(below.take(i + 1).drop_last() =~= below.take(i as int));
                lemma_durations_take(below, i + 1);
            }
            dur -= self.children[i].zone.duration;
            i += 1;
        }
        assert(below.take(i as int) =~= below);
        dur
    }

    /// The self time of the first node called `name`, if there is one.
    pub fn calc_child_self_time(&self, name: &str) -> (time: Option<u64>)
        requires
            self.tree().child_by_name(name@) matches Some(n) ==> n.self_time() >= 0,
        ensures
            match self.tree().child_by_name(name@) {
                Some(n) => time == Some(n.self_time() as u64),
                None => time is None,
            },
    {
        match self.child_by_name(name) {
            Some(n) => Some(n.calc_self_time()),
            None => None,
        }
    }

    /// The node's duration less the durations of the nodes called by one of
    /// `ignores`.
    pub fn calc_total_time(&self, ignores: &[String]) -> (time: u64)
        requires
            self.tree().total_time(ignores@) >= 0,
        ensures
            time == self.tree().total_time(ignores@),
    {
        let dur: u64 = self.zone.duration;
        let ghost all = self.tree().named_nodes(ignores@);
        let mut ignore_duration: u64 = 0;
        let mut a: usize = 0;
        assert(ignores@.take(0) =~= Seq::<String>::empty());
        while a < ignores.len()
            invariant
                a <= ignores.len(),
                all == self.tree().named_nodes(ignores@),
                durations(all) <= dur,
                ignore_duration == durations(self.tree().named_nodes(ignores@.take(a as int))),
            decreases ignores.len() - a,
        {
            let nodes = self.nodes_by_name(ignores[a].as_str());
            let ghost done = self.tree().named_nodes(ignores@.take(a as int));
            let ghost next = self.tree().named_nodes(ignores@.take(a + 1));
            proof {
                assert(ignores@.take(a + 1).drop_last() =~= ignores@.take(a as int));
                assert(next == done + ref_trees(nodes@));
                lemma_named_nodes_prefix(self.tree(), ignores@, a + 1);
                assert(all.take(next.len() as int) =~= next);
                lemma_durations_take(all, next.len() as int);
                lemma_durations(done, ref_trees(nodes@));
            }
            let mut b: usize = 0;
            assert(ref_trees(nodes@).take(0) =~= Seq::<Tree>::empty());
            while b < nodes.len()
                invariant
                    b <= nodes.len(),
                    durations(done) + durations(ref_trees(nodes@)) <= dur,
                    ignore_duration == durations(done) + durations(
                        ref_trees(nodes@).take(b as int),
                    ),
                decreases nodes.len() - b,
            {
                proof {
                    assert(ref_trees(nodes@).take(b + 1).drop_last() =~= ref_trees(nodes@).take(
                        b as int,
                    ));
                    lemma_durations_take(ref_trees(nodes@), b + 1);
                }
                ignore_duration += nodes[b].zone.duration;
                b += 1;
            }
            assert(ref_trees(nodes@).take(b as int) =~= ref_trees(nodes@));
            a += 1;
        }
        assert(ignores@.take(a as int) =~= ignores@);
        dur - ignore_duration
    }
}

/// Whether `zone` lies on the measured side of `child`.
fn beside(side: &TimeCalculation, zone: &Zone, child: &Zone) -> (b: bool)
    ensures
        b == is_beside(*side, *zone, *child),
{
    match side {
        TimeCalculation::Start => zone.completes_by(child),
        TimeCalculation::End => child.completes_by(zone),
    }
}

/// Whether one of `set` has the same zone as `n`.
fn holds(set: &Vec<&Node>, n: &Node) -> (found: bool)
    ensures
        found == holds_same(ref_trees(set@), n.tree()),
{
    let mut k: usize = 0;
    while k < set.len()
        invariant
            k <= set.len(),
            forall|j: int| 0 <= j < k ==> !(#[trigger] ref_trees(set@)[j]).zone.same(&n.zone),
        decreases set.len() - k,
    {
        assert(ref_trees(set@)[k as int] == set@[k as int].tree());
        if set[k].zone == n.zone {
            return true;
        }
        k += 1;
    }
    false
}

/// Adds `n` to `set` if it lies beside `child` and no node with the same
/// zone is in the set yet.
fn gather_node<'a>(set: &mut Vec<&'a Node>, n: &'a Node, child: &Zone, side: &TimeCalculation)
    ensures
        ref_trees(final(set)@) == gather_one(ref_trees(old(set)@), n.tree(), *child, *side),
{
    if beside(side, &n.zone, child) && !holds(set, n) {
        assert(ref_trees(set@.push(n)) =~= ref_trees(set@).push(n.tree()));
        set.push(n);
    }
}

impl Node {
    /// The time from this node's boundary to the first node called `name`:
    /// from start to start or from end to end, less the self times of the
    /// nodes called by one of `ignores` and of this node's children, as far
    /// as they lie on that side of the node found.  Of nodes with the same
    /// zone only the first counts.
    pub fn time_to(&self, name: &str, ignores: &[String], side: &TimeCalculation) -> (time: Option<
        u64,
    >)
        requires
            self.tree().time_to_fits(name@, ignores@, *side),
        ensures
            match self.tree().time_to(name@, ignores@, *side) {
                Some(t) => time == Some(t as u64),
                None => time is None,
            },
    {
        if !self.contains_zone(name) {
            proof {
                lemma_child_by_name(self.tree(), name@);
            }
            return None;
        }
        let child = match self.child_by_name(name) {
            Some(c) => c,
            None => {
                return None;
            },
        };
        let ghost tree = self.tree();
        let ghost none = Seq::<Tree>::empty();

        let mut ignore_duration: Vec<&Node> = Vec::new();
        let mut a: usize = 0;
        assert(ignores@.take(0) =~= Seq::<String>::empty());
        assert(ref_trees(ignore_duration@) =~= none);
        while a < ignores.len()
            invariant
                a <= ignores.len(),
                tree == self.tree(),
                none == Seq::<Tree>::empty(),
                ref_trees(ignore_duration@) == gather(
                    none,
                    tree.named_nodes(ignores@.take(a as int)),
                    child.zone,
                    *side,
                ),
            decreases ignores.len() - a,
        {
            let nodes = self.nodes_by_name(ignores[a].as_str());
            let ghost done = tree.named_nodes(ignores@.take(a as int));
            let ghost start = ref_trees(ignore_duration@);
            proof {
                assert(ignores@.take(a + 1).drop_last() =~= ignores@.take(a as int));
                lemma_gather_concat(none, done, ref_trees(nodes@), child.zone, *side);
            }
            let mut b: usize = 0;
            assert(ref_trees(nodes@).take(0) =~= none);
            while b < nodes.len()
                invariant
                    b <= nodes.len(),
                    ref_trees(ignore_duration@) == gather(
                        start,
                        ref_trees(nodes@).take(b as int),
                        child.zone,
                        *side,
                    ),
                decreases nodes.len() - b,
            {
                proof {
                    assert(ref_trees(nodes@).take(b + 1).drop_last() =~= ref_trees(nodes@).take(
                        b as int,
                    ));
                    assert(ref_trees(nodes@).take(b + 1).last() == nodes@[b as int].tree());
                }
                gather_node(&mut ignore_duration, nodes[b], &child.zone, side);
                b += 1;
            }
            assert(ref_trees(nodes@).take(b as int) =~= ref_trees(nodes@));
            a += 1;
        }
        assert(ignores@.take(a as int) =~= ignores@);

        proof {
            Self::lemma_trees(self.children@);
        }
        let ghost named = ref_trees(ignore_duration@);
        let mut c: usize = 0;
        assert(tree.children.take(0) =~= none);
        while c < self.children.len()
            invariant
                c <= self.children.len(),
                tree == self.tree(),
                tree.children.len() == self.children.len(),
                forall|j: int|
                    0 <= j < self.children.len() ==> (#[trigger] tree.children[j])
                        == self.children[j].tree(),
                ref_trees(ignore_duration@) == gather(
                    named,
                    tree.children.take(c as int),
                    child.zone,
                    *side,
                ),
            decreases self.children.len() - c,
        {
            proof {
                assert(tree.children.take(c + 1).drop_last() =~= tree.children.take(c as int));
            }
            gather_node(&mut ignore_duration, &self.children[c], &child.zone, side);
            c += 1;
        }
        assert(tree.children.take(c as int) =~= tree.children);

        let distance: u64 = match side {
            TimeCalculation::Start => self.zone.get_start_distance(&child.zone),
            TimeCalculation::End => self.zone.get_end_distance(&child.zone),
        };

        let ghost set = ref_trees(ignore_duration@);
        assert(set == tree.ignored_beside(child.zone, ignores@, *side));
        let mut sum: u64 = 0;
        let mut k: usize = 0;
        assert(set.take(0) =~= none);
        while k < ignore_duration.len()
            invariant
                k <= ignore_duration.len(),
                set == ref_trees(ignore_duration@),
                self_times_fit(set),
                self_times(set) <= distance,
                sum == self_times(set.take(k as int)),
            decreases ignore_duration.len() - k,
        {
            proof {
                assert(set.take(k + 1).drop_last() =~= set.take(k as int));
                assert(set.take(k + 1).last() == set[k as int]);
                assert(set[k as int] == ignore_duration@[k as int].tree());
                lemma_self_times_take(set, k + 1);
            }
            sum = sum + ignore_duration[k].calc_self_time();
            k += 1;
        }
        assert(set.take(k as int) =~= set);
        Some(distance - sum)
    }
}

/// The nodes named by the first `i` names are where the nodes named by all
/// of them begin.
pub proof fn lemma_named_nodes_prefix(tree: Tree, ignores: Seq<String>, i: int)
    requires
        0 <= i <= ignores.len(),
    ensures
        tree.named_nodes(ignores.take(i)).is_prefix_of(tree.named_nodes(ignores)),
    decreases ignores.len() - i,
{
    if i == ignores.len() {
        assert(ignores.take(i) =~= ignores);
    } else {
        lemma_named_nodes_prefix(tree, ignores, i + 1);
        assert(ignores.take(i + 1).drop_last() =~= ignores.take(i));
    }
}

impl From<Zone> for Node {
    /// A node with nothing below it.
    fn from(z: Zone) -> (node: Node)
        ensures
            node.tree() == Tree::leaf(z),
    {
        Node::new(z)
    }
}

impl vstd::std_specs::convert::FromSpecImpl<Zone> for Node {
    open spec fn obeys_from_spec() -> bool {
        false
    }

    open spec fn from_spec(z: Zone) -> Node {
        arbitrary()
    }
}

/// The test "the zone is called `name`".
pub open spec fn called(name: Seq<char>) -> spec_fn(Zone) -> bool {
    |z: Zone| z.name@ == name
}

/// The test "the zone is not called `name`".
pub open spec fn not_called(name: Seq<char>) -> spec_fn(Zone) -> bool {
    |z: Zone| z.name@ != name
}

impl Tree {
    /// No counter in the tree is above `k`.
    pub open spec fn bounded(self, k: nat) -> bool
        decreases self,
    {
        self.len <= k && forall|i: int|
            0 <= i < self.children.len() ==> (#[trigger] self.children[i]).bounded(k)
    }
}

/// A tree whose counters are below the limit takes one more zone, and its
/// counters go up by one at most.
pub proof fn lemma_push_bounded(tree: Tree, zone: Zone, k: nat)
    requires
        tree.bounded(k),
        k < usize::MAX,
    ensures
        tree.can_push(Tree::leaf(zone)),
        tree.push(Tree::leaf(zone)).bounded(k + 1),
    decreases tree,
{
    let leaf = Tree::leaf(zone);
    lemma_first_none(tree.children, holds_zone(zone));
    assert forall|i: int| 0 <= i < tree.children.len() implies (#[trigger] tree.children[i]).bounded(
        k + 1,
    ) by {
        lemma_bounded_grows(tree.children[i], k, k + 1);
    }
    match first(tree.children, holds_zone(zone)) {
        Some(i) => {
            lemma_push_bounded(tree.children[i], zone, k);
        },
        None => {
            assert(leaf.bounded(k + 1));
        },
    }
}

/// A bound on the counters stays one when it is raised.
pub proof fn lemma_bounded_grows(tree: Tree, k: nat, more: nat)
    requires
        tree.bounded(k),
        k <= more,
    ensures
        tree.bounded(more),
    decreases tree,
{
    assert forall|i: int| 0 <= i < tree.children.len() implies (#[trigger] tree.children[i]).bounded(
        more,
    ) by {
        lemma_bounded_grows(tree.children[i], k, more);
    }
}

/// Builds the trees from where `node` meets `root`.
///
/// A zone inside the root goes into its tree.  A zone that the root outlasts
/// without containing it is passed over.  Before any other zone the root is
/// done and the next root takes over.  The building ends when the zones or
/// the roots run out.
pub open spec fn build(
    root: Tree,
    roots: Seq<Zone>,
    node: Zone,
    nodes: Seq<Zone>,
    done: Seq<Tree>,
) -> Seq<Tree>
    decreases roots.len() + nodes.len(),
{
    if root.zone.spec_contains(&node) {
        if nodes.len() > 0 {
            build(root.push(Tree::leaf(node)), roots, nodes[0], nodes.drop_first(), done)
        } else {
            done.push(root.push(Tree::leaf(node)))
        }
    } else if root.zone.spec_ends_after(&node) {
        if nodes.len() > 0 {
            build(root, roots, nodes[0], nodes.drop_first(), done)
        } else {
            done.push(root)
        }
    } else {
        if roots.len() > 0 {
            build(Tree::leaf(roots[0]), roots.drop_first(), node, nodes, done.push(root))
        } else {
            done.push(root)
        }
    }
}

/// The trees of the zones called `root`, each with the other zones that lie
/// inside it, as far as the building gets.
pub open spec fn spec_build_trees(zones: Seq<Zone>, root: Seq<char>) -> Seq<Tree> {
    let roots = zones.filter(called(root));
    let nodes = zones.filter(not_called(root));
    build(Tree::leaf(roots[0]), roots.drop_first(), nodes[0], nodes.drop_first(), Seq::empty())
}

/// `stack` holds the zones of `rest`, last zone first.
pub open spec fn is_backwards(stack: Seq<Zone>, rest: Seq<Zone>) -> bool {
    stack.len() == rest.len() && forall|i: int|
        0 <= i < stack.len() ==> #[trigger] stack[i] == rest[rest.len() - 1 - i]
}

/// The zone on top of the stack is the next of the rest.
proof fn lemma_next_of_stack(stack: Seq<Zone>, rest: Seq<Zone>)
    requires
        is_backwards(stack, rest),
        stack.len() > 0,
    ensures
        stack.last() == rest[0],
        is_backwards(stack.drop_last(), rest.drop_first()),
{
    assert(stack[stack.len() - 1] == rest[0]);
    assert forall|i: int| 0 <= i < stack.drop_last().len() implies #[trigger] stack.drop_last()[i]
        == rest.drop_first()[rest.drop_first().len() - 1 - i] by {
        assert(stack.drop_last()[i] == stack[i]);
    }
}

/// Pushing a zone on the stack puts it before the rest.
proof fn lemma_stack_push(stack: Seq<Zone>, rest: Seq<Zone>, z: Zone)
    requires
        is_backwards(stack, rest),
    ensures
        is_backwards(stack.push(z), seq![z] + rest),
{
    let more = seq![z] + rest;
    assert forall|i: int| 0 <= i < stack.push(z).len() implies #[trigger] stack.push(z)[i]
        == more[more.len() - 1 - i] by {
        if i < stack.len() {
            assert(stack.push(z)[i] == stack[i]);
            assert(more[more.len() - 1 - i] == rest[rest.len() - 1 - i]);
        }
    }
}

/// Parts the zones into those called `root` and the others.  Both lists come
/// back last zone first.
fn split_by_name(zones: Vec<Zone>, root: &str) -> (parts: (Vec<Zone>, Vec<Zone>))
    ensures
        is_backwards(parts.0@, zones@.filter(called(root@))),
        is_backwards(parts.1@, zones@.filter(not_called(root@))),
{
    let wanted = root.to_owned();
    let ghost all = zones@;
    let ghost is_root = called(root@);
    let ghost is_node = not_called(root@);
    let mut zones = zones;
    let mut roots: Vec<Zone> = Vec::new();
    let mut nodes: Vec<Zone> = Vec::new();
    proof {
        assert(all.skip(all.len() as int) =~= Seq::<Zone>::empty());
        lemma_filter_one(Seq::<Zone>::empty(), is_root);
        lemma_filter_one(Seq::<Zone>::empty(), is_node);
    }
    while zones.len() > 0
        invariant
            wanted@ == root@,
            is_root == called(root@),
            is_node == not_called(root@),
            zones@.len() <= all.len(),
            zones@ == all.take(zones@.len() as int),
            is_backwards(roots@, all.skip(zones@.len() as int).filter(is_root)),
            is_backwards(nodes@, all.skip(zones@.len() as int).filter(is_node)),
        decreases zones.len(),
    {
        let ghost m = zones@.len() as int;
        let z = zones.pop().unwrap();
        proof {
            assert(z == all[m - 1]);
            assert(zones@ =~= all.take(m - 1));
            lemma_filter_skip_step(all, is_root, m);
            lemma_filter_skip_step(all, is_node, m);
        }
        if z.name == wanted {
            proof {
                lemma_stack_push(roots@, all.skip(m).filter(is_root), z);
            }
            roots.push(z);
        } else {
            proof {
                lemma_stack_push(nodes@, all.skip(m).filter(is_node), z);
            }
            nodes.push(z);
        }
    }
    assert(all.skip(0) =~= all);
    (roots, nodes)
}

/// Builds one tree for each zone called `root`, in their order, and sorts
/// the other zones into them.  See `build` for the way they meet.
pub fn build_trees(zones: Vec<Zone>, root: &str) -> (trees: Vec<Node>)
    requires
        zones@.filter(called(root@)).len() > 0,
        zones@.filter(not_called(root@)).len() > 0,
    ensures
        Node::trees(trees@) == spec_build_trees(zones@, root@),
{
    let ghost mut rest_roots = zones@.filter(called(root@));
    let ghost mut rest_nodes = zones@.filter(not_called(root@));
    let ghost goal = spec_build_trees(zones@, root@);
    let (mut roots, mut nodes) = split_by_name(zones, root);
    let total: usize = nodes.len();
    proof {
        lemma_next_of_stack(roots@, rest_roots);
        lemma_next_of_stack(nodes@, rest_nodes);
    }
    let mut root_node = Node::new(roots.pop().unwrap());
    let mut node = nodes.pop().unwrap();
    let mut next_roots: Vec<Node> = Vec::new();
    let ghost mut done = Seq::<Tree>::empty();
    proof {
        rest_roots = rest_roots.drop_first();
        rest_nodes = rest_nodes.drop_first();
        assert(Node::trees(next_roots@) =~= done);
    }
    loop
        invariant_except_break
            nodes@.len() < total,
            root_node.tree().bounded((total - nodes@.len() - 1) as nat),
            is_backwards(roots@, rest_roots),
            is_backwards(nodes@, rest_nodes),
            goal == build(root_node.tree(), rest_roots, node, rest_nodes, done),
        invariant
            done == Node::trees(next_roots@),
        ensures
            goal == done.push(root_node.tree()),
        decreases roots@.len() + nodes@.len(),
    {
        let ghost k = (total - nodes@.len() - 1) as nat;
        if root_node.zone.contains(&node) {
            proof {
                lemma_push_bounded(root_node.tree(), node, k);
            }
            root_node.push(Node::new(node));
            if nodes.len() == 0 {
                break ;
            }
            proof {
                lemma_next_of_stack(nodes@, rest_nodes);
                rest_nodes = rest_nodes.drop_first();
            }
            node = nodes.pop().unwrap();
        } else if root_node.zone.ends_after(&node) {
            if nodes.len() == 0 {
                break ;
            }
            proof {
                lemma_next_of_stack(nodes@, rest_nodes);
                rest_nodes = rest_nodes.drop_first();
                lemma_bounded_grows(root_node.tree(), k, k + 1);
            }
            node = nodes.pop().unwrap();
        } else {
            if roots.len() == 0 {
                break ;
            }
            proof {
                lemma_next_of_stack(roots@, rest_roots);
                rest_roots = rest_roots.drop_first();
                lemma_trees_push(next_roots@, root_node);
                done = done.push(root_node.tree());
            }
            next_roots.push(root_node);
            root_node = Node::new(roots.pop().unwrap());
            proof {
                lemma_bounded_grows(root_node.tree(), 0, k);
            }
        }
    }
    proof {
        lemma_trees_push(next_roots@, root_node);
    }
    next_roots.push(root_node);
    next_roots
}

/// Appending a node appends its value.
proof fn lemma_trees_push(nodes: Seq<Node>, node: Node)
    ensures
        Node::trees(nodes.push(node)) == Node::trees(nodes).push(node.tree()),
{
    assert(nodes.push(node).drop_last() =~= nodes);
}

/// A node on one line: its name, the number of its children, its
/// boundaries cut off at `TIME_CUT_OFF`, and its duration.
pub open spec fn rendered(tree: Tree) -> Seq<char> {
    tree.zone.name@ + "("@ + decimal(tree.children.len()) + ") ("@ + decimal(
        (tree.zone.time_start % TIME_CUT_OFF) as nat,
    ) + " - "@ + decimal((tree.zone.time_end % TIME_CUT_OFF) as nat) + ")("@ + decimal(
        tree.zone.duration as nat,
    ) + ")"@
}

impl Node {
    /// The node on one line.
    pub fn to_string(&self) -> (line: String)
        ensures
            line@ == rendered(self.tree()),
    {
        proof {
            Self::lemma_trees(self.children@);
        }
        let mut line = self.zone.name.clone();
        line.append("(");
        line.append(u64_to_string(self.children.len() as u64).as_str());
        line.append(") (");
        line.append(u64_to_string(self.zone.time_start % TIME_CUT_OFF).as_str());
        line.append(" - ");
        line.append(u64_to_string(self.zone.time_end % TIME_CUT_OFF).as_str());
        line.append(")(");
        line.append(u64_to_string(self.zone.duration).as_str());
        line.append(")");
        line
    }
}

} // verus!
