use vstd::prelude::*;

use crate::rat::{rat_add, rat_div, rat_wf, Rat};

verus! {

/// A tree node: an internal node carries a branch length and an ordered
/// sequence of children; a leaf carries a branch length and a name (the
/// UTF-8 bytes of its text label, not required to be unique).
pub enum Tree {
    Node { length: Rat, children: Vec<Tree> },
    Leaf { length: Rat, name: Vec<u8> },
}

/// Mathematical model of a tree.
pub ghost enum TreeV {
    Node { length: Rat, children: Seq<TreeV> },
    Leaf { length: Rat, name: Seq<u8> },
}

/// Model of a forest: the models of `ts`, in order.
pub open spec fn forest_view(ts: Seq<Tree>) -> Seq<TreeV>
    decreases ts,
{
    Seq::new(
        ts.len(),
        |i: int|
            if 0 <= i < ts.len() {
                tree_view(ts[i])
            } else {
                TreeV::Leaf { length: Rat { num: 0, den: 1 }, name: Seq::empty() }
            },
    )
}

/// Model of a tree.
pub open spec fn tree_view(t: Tree) -> TreeV
    decreases t,
{
    match t {
        Tree::Node { length, children } => TreeV::Node {
            length,
            children: forest_view(children@),
        },
        Tree::Leaf { length, name } => TreeV::Leaf { length, name: name@ },
    }
}

impl View for Tree {
    type V = TreeV;

    open spec fn view(&self) -> TreeV {
        tree_view(*self)
    }
}

/// All branch lengths of the subtree are well-formed rationals.
pub open spec fn tree_wf(t: TreeV) -> bool
    decreases t,
{
    match t {
        TreeV::Node { length, children } => rat_wf(length) && (forall|i: int|
            0 <= i < children.len() ==> tree_wf(#[trigger] children[i])),
        TreeV::Leaf { length, .. } => rat_wf(length),
    }
}

/// Number of leaves of the subtrees `ts[0..i]`.
pub open spec fn leaf_count_upto(ts: Seq<TreeV>, i: int) -> nat
    decreases ts, i,
{
    if i <= 0 || i > ts.len() {
        0
    } else {
        leaf_count_upto(ts, i - 1) + leaf_count(ts[i - 1])
    }
}

/// Number of leaves of the subtree `t`: 1 for a leaf, the sum over the
/// children's counts for an internal node (0 when it has no children).
pub open spec fn leaf_count(t: TreeV) -> nat
    decreases t, 0int,
{
    match t {
        TreeV::Node { children, .. } => leaf_count_upto(children, children.len() as int),
        TreeV::Leaf { .. } => 1,
    }
}

/// Names of the leaves of the subtrees `ts[0..i]`, in tree order.
pub open spec fn leaf_names_upto(ts: Seq<TreeV>, i: int) -> Seq<Seq<u8>>
    decreases ts, i,
{
    if i <= 0 || i > ts.len() {
        Seq::empty()
    } else {
        leaf_names_upto(ts, i - 1) + leaf_names(ts[i - 1])
    }
}

/// Names of the leaves of the subtree `t`, in tree order.
pub open spec fn leaf_names(t: TreeV) -> Seq<Seq<u8>>
    decreases t, 0int,
{
    match t {
        TreeV::Node { children, .. } => leaf_names_upto(children, children.len() as int),
        TreeV::Leaf { name, .. } => seq![name],
    }
}

/// The partial leaf counts grow with the prefix taken.
pub proof fn lemma_leaf_count_upto_mono(ts: Seq<TreeV>, i: int, j: int)
    requires
        0 <= i <= j <= ts.len(),
    ensures
        leaf_count_upto(ts, i) <= leaf_count_upto(ts, j),
    decreases j,
{
    if i < j {
        lemma_leaf_count_upto_mono(ts, i, j - 1);
    }
}

/// The leaf count of any subtree is the number of its reachable leaves.
pub proof fn lemma_leaf_count_is_leaves(t: TreeV)
    ensures
        leaf_count(t) == leaf_names(t).len(),
    decreases t, 0int,
{
    match t {
        TreeV::Node { children, .. } => {
            lemma_leaf_count_upto_is_leaves(children, children.len() as int);
        },
        TreeV::Leaf { .. } => {},
    }
}

/// Prefix form of `lemma_leaf_count_is_leaves`.
pub proof fn lemma_leaf_count_upto_is_leaves(ts: Seq<TreeV>, i: int)
    ensures
        leaf_count_upto(ts, i) == leaf_names_upto(ts, i).len(),
    decreases ts, i,
{
    if 0 < i <= ts.len() {
        lemma_leaf_count_upto_is_leaves(ts, i - 1);
        lemma_leaf_count_is_leaves(ts[i - 1]);
    }
}

impl Tree {
    /// Leaf count of the subtree, recomputed on demand (linear per call, so
    /// quadratic over a whole walk — kept simple rather than memoized);
    /// `None` when the count does not fit in `usize`.
    #[verifier::loop_isolation(false)]
    pub fn size(&self) -> (r: Option<usize>)
        ensures
            match r {
                Some(n) => n == leaf_count(self@),
                None => leaf_count(self@) > usize::MAX,
            },
        decreases *self,
    {
        match self {
            Tree::Leaf { .. } => Some(1),
            Tree::Node { length, children } => {
                let ghost cs = forest_view(children@);
                let mut acc: usize = 0;
                let mut i: usize = 0;
                while i < children.len()
                    invariant
                        i <= children.len(),
                        cs == forest_view(children@),
                        cs.len() == children@.len(),
                        acc == leaf_count_upto(cs, i as int),
                    decreases children.len() - i,
                {
                    let c = &children[i];
                    proof {
                        assert(cs[i as int] == tree_view(*c));
                        assert(decreases_to!(*children => children[i as int]));
                        assert(decreases_to!(*self => *c));
                    }
                    let n = match c.size() {
                        Some(n) => n,
                        None => {
                            proof {
                                lemma_leaf_count_upto_mono(cs, i as int + 1, cs.len() as int);
                            }
                            return None;
                        },
                    };
                    acc = match acc.checked_add(n) {
                        Some(a) => a,
                        None => {
                            proof {
                                lemma_leaf_count_upto_mono(cs, i as int + 1, cs.len() as int);
                            }
                            return None;
                        },
                    };
                    i = i + 1;
                }
                Some(acc)
            },
        }
    }

    /// Walks the subtree with the accumulated per-leaf share `curr`, and
    /// returns one `(score, name)` pair per reachable leaf, in tree order.
    ///
    /// A leaf's score is `curr` plus its own branch length. An internal
    /// node's branch length is divided evenly among all leaves below it:
    /// each child is walked with `curr + length / leaf_count`. A subtree
    /// without leaves contributes no pairs, so no division by a zero leaf
    /// count is ever taken. `None` exactly when some exact intermediate
    /// value does not fit its machine type (see `walk_scores`).
    #[verifier::loop_isolation(false)]
    pub fn walk(&self, curr: Rat) -> (r: Option<Vec<(Rat, Vec<u8>)>>)
        ensures
            match r {
                Some(v) => walk_scores(self@, curr) == Some(pairs_view(v@)),
                None => walk_scores(self@, curr) is None,
            },
        decreases *self,
    {
        match self {
            Tree::Leaf { length, name } => match curr.add(length) {
                Some(s) => {
                    let mut out: Vec<(Rat, Vec<u8>)> = Vec::new();
                    out.push((s, clone_bytes(name)));
                    proof {
                        assert(pairs_view(out@) =~= seq![(s, name@)]);
                    }
                    Some(out)
                },
                None => None,
            },
            Tree::Node { length, children } => {
                let ghost cs = forest_view(children@);
                let n = match self.size() {
                    Some(n) => n,
                    None => {
                        return None;
                    },
                };
                if n == 0 {
                    let out: Vec<(Rat, Vec<u8>)> = Vec::new();
                    proof {
                        assert(pairs_view(out@) =~= Seq::<(Rat, Seq<u8>)>::empty());
                    }
                    return Some(out);
                }
                let step = match length.div_int(n as u64) {
                    Some(s) => s,
                    None => {
                        return None;
                    },
                };
                let next = match curr.add(&step) {
                    Some(s) => s,
                    None => {
                        return None;
                    },
                };
                let mut out: Vec<(Rat, Vec<u8>)> = Vec::new();
                let mut i: usize = 0;
                while i < children.len()
                    invariant
                        i <= children.len(),
                        walk_upto(cs, next, i as int) == Some(pairs_view(out@)),
                    decreases children.len() - i,
                {
                    let c = &children[i];
                    proof {
                        assert(cs[i as int] == tree_view(*c));
                        assert(decreases_to!(*children => children[i as int]));
                        assert(decreases_to!(*self => *c));
                    }
                    let mut part = match c.walk(next) {
                        Some(p) => p,
                        None => {
                            proof {
                                lemma_walk_upto_none_mono(cs, next, i as int + 1, cs.len() as int);
                            }
                            return None;
                        },
                    };
                    let ghost old_out = out@;
                    let ghost part_snap = part@;
                    out.append(&mut part);
                    proof {
                        assert(pairs_view(out@) =~= pairs_view(old_out) + pairs_view(part_snap));
                    }
                    i = i + 1;
                }
                Some(out)
            },
        }
    }
}

/// The scores and the name bytes of a sequence of result pairs.
pub open spec fn pairs_view(v: Seq<(Rat, Vec<u8>)>) -> Seq<(Rat, Seq<u8>)> {
    v.map(|i: int, p: (Rat, Vec<u8>)| (p.0, p.1@))
}

/// Result pairs of walking the subtrees `ts[0..i]`, each with the share
/// `curr`, concatenated in order; `None` when any walk fails.
pub open spec fn walk_upto(ts: Seq<TreeV>, curr: Rat, i: int) -> Option<Seq<(Rat, Seq<u8>)>>
    decreases ts, i,
{
    if i <= 0 || i > ts.len() {
        Some(Seq::empty())
    } else {
        match (walk_upto(ts, curr, i - 1), walk_scores(ts[i - 1], curr)) {
            (Some(a), Some(b)) => Some(a + b),
            _ => None,
        }
    }
}

/// Result pairs of walking the subtree `t` with the accumulated share
/// `curr`: one per leaf, in tree order. `None` exactly when an exact
/// intermediate score does not fit its machine type (or a leaf count does
/// not fit `usize`): the one failure of the whole computation, since the
/// scores themselves are always well-defined numbers.
pub open spec fn walk_scores(t: TreeV, curr: Rat) -> Option<Seq<(Rat, Seq<u8>)>>
    decreases t, 0int,
{
    match t {
        TreeV::Leaf { length, name } => match rat_add(curr, length) {
            Some(s) => Some(seq![(s, name)]),
            None => None,
        },
        TreeV::Node { length, children } => {
            let n = leaf_count_upto(children, children.len() as int);
            if n == 0 {
                Some(Seq::empty())
            } else if n > usize::MAX {
                None
            } else {
                match rat_div(length, n as u64) {
                    Some(step) => match rat_add(curr, step) {
                        Some(next) => walk_upto(children, next, children.len() as int),
                        None => None,
                    },
                    None => None,
                }
            }
        },
    }
}

/// Once a prefix of a forest walk fails, every longer prefix fails.
pub proof fn lemma_walk_upto_none_mono(ts: Seq<TreeV>, curr: Rat, i: int, j: int)
    requires
        0 <= i <= j <= ts.len(),
        walk_upto(ts, curr, i) is None,
    ensures
        walk_upto(ts, curr, j) is None,
    decreases j,
{
    if i < j {
        lemma_walk_upto_none_mono(ts, curr, i, j - 1);
    }
}

/// A walk yields exactly one result pair per reachable leaf.
pub proof fn lemma_walk_scores_len(t: TreeV, curr: Rat)
    requires
        walk_scores(t, curr) is Some,
    ensures
        walk_scores(t, curr)->Some_0.len() == leaf_count(t),
    decreases t, 0int,
{
    match t {
        TreeV::Leaf { .. } => {},
        TreeV::Node { children, .. } => {
            let n = leaf_count_upto(children, children.len() as int);
            if n != 0 {
                lemma_walk_upto_len(children, walk_next_share(t, curr), children.len() as int);
            }
        },
    }
}

/// The share each child of an internal node is walked with; meaningful only
/// when the node's walk reaches its children.
pub open spec fn walk_next_share(t: TreeV, curr: Rat) -> Rat {
    rat_add(
        curr,
        rat_div(t->Node_length, leaf_count(t) as u64)->Some_0,
    )->Some_0
}

/// Prefix form of `lemma_walk_scores_len`.
pub proof fn lemma_walk_upto_len(ts: Seq<TreeV>, curr: Rat, i: int)
    requires
        walk_upto(ts, curr, i) is Some,
    ensures
        walk_upto(ts, curr, i)->Some_0.len() == leaf_count_upto(ts, i),
    decreases ts, i,
{
    if 0 < i <= ts.len() {
        lemma_walk_upto_len(ts, curr, i - 1);
        lemma_walk_scores_len(ts[i - 1], curr);
    }
}

/// A subtree without leaves yields no result pairs and cannot fail: the
/// share handed to it, however it was computed, is never emitted.
pub proof fn lemma_walk_zero_leaves(t: TreeV, curr: Rat)
    requires
        leaf_count(t) == 0,
    ensures
        walk_scores(t, curr) == Some(Seq::<(Rat, Seq<u8>)>::empty()),
{
}

/// Every score a walk emits is a well-defined number: starting from a
/// well-formed share, a well-formed tree yields only well-formed scores.
pub proof fn lemma_walk_scores_wf(t: TreeV, curr: Rat)
    requires
        tree_wf(t),
        rat_wf(curr),
        walk_scores(t, curr) is Some,
    ensures
        forall|k: int|
            0 <= k < walk_scores(t, curr)->Some_0.len() ==> rat_wf(
                #[trigger] walk_scores(t, curr)->Some_0[k].0,
            ),
    decreases t, 0int,
{
    match t {
        TreeV::Leaf { length, .. } => {
            crate::rat::lemma_rat_add_wf(curr, length);
        },
        TreeV::Node { length, children } => {
            let n = leaf_count_upto(children, children.len() as int);
            if n != 0 {
                crate::rat::lemma_rat_div_wf(length, n as u64);
                crate::rat::lemma_rat_add_wf(curr, rat_div(length, n as u64)->Some_0);
                lemma_walk_upto_wf(children, walk_next_share(t, curr), children.len() as int);
            }
        },
    }
}

/// Prefix form of `lemma_walk_scores_wf`.
pub proof fn lemma_walk_upto_wf(ts: Seq<TreeV>, curr: Rat, i: int)
    requires
        forall|k: int| 0 <= k < ts.len() ==> tree_wf(#[trigger] ts[k]),
        rat_wf(curr),
        walk_upto(ts, curr, i) is Some,
    ensures
        forall|k: int|
            0 <= k < walk_upto(ts, curr, i)->Some_0.len() ==> rat_wf(
                #[trigger] walk_upto(ts, curr, i)->Some_0[k].0,
            ),
    decreases ts, i,
{
    if 0 < i <= ts.len() {
        lemma_walk_upto_wf(ts, curr, i - 1);
        lemma_walk_scores_wf(ts[i - 1], curr);
    }
}

/// Sum of `k` copies of the exact rational `num / den`, as an exact pair of
/// unbounded integers (numerator, denominator).
pub open spec fn repeat_sum(num: int, den: int, k: nat) -> (int, int)
    decreases k,
{
    if k == 0 {
        (0, 1)
    } else {
        let prev = repeat_sum(num, den, (k - 1) as nat);
        (prev.0 * den + num * prev.1, prev.1 * den)
    }
}

/// The sum of `k` copies of `num / den` has the value `(k * num) / den`.
proof fn lemma_repeat_sum_value(num: int, den: int, k: nat)
    requires
        den >= 1,
    ensures
        repeat_sum(num, den, k).1 >= 1,
        repeat_sum(num, den, k).0 * den == k * num * repeat_sum(num, den, k).1,
    decreases k,
{
    if k == 0 {
    } else {
        let prev = repeat_sum(num, den, (k - 1) as nat);
        let cur = repeat_sum(num, den, k);
        lemma_repeat_sum_value(num, den, (k - 1) as nat);
        assert(cur.1 >= 1) by (nonlinear_arith)
            requires
                cur.1 == prev.1 * den,
                prev.1 >= 1,
                den >= 1,
        ;
        assert(cur.0 * den == k * num * cur.1) by (nonlinear_arith)
            requires
                prev.0 * den == (k - 1) * num * prev.1,
                cur.0 == prev.0 * den + num * prev.1,
                cur.1 == prev.1 * den,
        ;
    }
}

/// Fair-proportion conservation: divide an internal node's branch length
/// evenly among the `n` leaves below it (each receives
/// `length.num / (length.den * n)`, exactly the share `walk_scores` adds for
/// that node) and sum the `n` shares: the total is exactly the branch
/// length again — no length is lost or invented by the distribution.
pub proof fn lemma_score_conservation(length: Rat, n: nat)
    requires
        rat_wf(length),
        n >= 1,
    ensures
        ({
            let total = repeat_sum(length.num as int, length.den * n, n);
            total.0 * length.den == length.num * total.1
        }),
{
    let d = length.den * n;
    assert(d >= 1) by (nonlinear_arith)
        requires
            d == length.den * n,
            length.den >= 1,
            n >= 1,
    ;
    let total = repeat_sum(length.num as int, d as int, n);
    lemma_repeat_sum_value(length.num as int, d as int, n);
    assert(total.0 * length.den == length.num * total.1) by (nonlinear_arith)
        requires
            total.0 * d == n * length.num * total.1,
            d == length.den * n,
            n >= 1,
    ;
}

/// An exact copy of a byte vector.
pub fn clone_bytes(v: &Vec<u8>) -> (r: Vec<u8>)
    ensures
        r@ == v@,
{
    let mut r: Vec<u8> = Vec::new();
    let mut i: usize = 0;
    while i < v.len()
        invariant
            i <= v.len(),
            r@ == v@.subrange(0, i as int),
        decreases v.len() - i,
    {
        r.push(v[i]);
        proof {
            assert(r@ =~= v@.subrange(0, i as int + 1));
        }
        i = i + 1;
    }
    proof {
        assert(r@ =~= v@);
    }
    r
}

} // verus!

verus! {

/// A walk's results carry exactly the reachable leaves' names, in tree
/// order: together with `lemma_walk_scores_len`, one result per leaf.
pub proof fn lemma_walk_scores_names(t: TreeV, curr: Rat)
    requires
        walk_scores(t, curr) is Some,
    ensures
        walk_scores(t, curr)->Some_0.map_values(|p: (Rat, Seq<u8>)| p.1) == leaf_names(t),
    decreases t, 0int,
{
    match t {
        TreeV::Leaf { .. } => {
            assert(walk_scores(t, curr)->Some_0.map_values(|p: (Rat, Seq<u8>)| p.1)
                =~= leaf_names(t));
        },
        TreeV::Node { children, .. } => {
            let n = leaf_count_upto(children, children.len() as int);
            if n == 0 {
                lemma_leaf_count_upto_is_leaves(children, children.len() as int);
                assert(walk_scores(t, curr)->Some_0.map_values(|p: (Rat, Seq<u8>)| p.1)
                    =~= leaf_names(t));
            } else {
                lemma_walk_upto_names(children, walk_next_share(t, curr), children.len() as int);
            }
        },
    }
}

/// Prefix form of `lemma_walk_scores_names`.
pub proof fn lemma_walk_upto_names(ts: Seq<TreeV>, curr: Rat, i: int)
    requires
        walk_upto(ts, curr, i) is Some,
    ensures
        walk_upto(ts, curr, i)->Some_0.map_values(|p: (Rat, Seq<u8>)| p.1) == leaf_names_upto(
            ts,
            i,
        ),
    decreases ts, i,
{
    if 0 < i <= ts.len() {
        lemma_walk_upto_names(ts, curr, i - 1);
        lemma_walk_scores_names(ts[i - 1], curr);
        let a = walk_upto(ts, curr, i - 1)->Some_0;
        let b = walk_scores(ts[i - 1], curr)->Some_0;
        assert((a + b).map_values(|p: (Rat, Seq<u8>)| p.1) =~= a.map_values(
            |p: (Rat, Seq<u8>)| p.1,
        ) + b.map_values(|p: (Rat, Seq<u8>)| p.1));
    } else {
        assert(walk_upto(ts, curr, i)->Some_0.map_values(|p: (Rat, Seq<u8>)| p.1)
            =~= leaf_names_upto(ts, i));
    }
}

} // verus!

verus! {

/// Fair-proportion conservation, tied to a tree: for an internal node with
/// at least one leaf below it, the share its walk hands each of those
/// leaves is `length.num / (length.den * leaf_count)` (the value of
/// `rat_div(length, leaf_count)`), and `leaf_count` copies of that share
/// sum to exactly the node's branch length.
pub proof fn lemma_edge_conservation(t: TreeV)
    requires
        t is Node,
        leaf_count(t) >= 1,
        rat_wf(t->Node_length),
    ensures
        ({
            let length = t->Node_length;
            let n = leaf_count(t);
            let total = repeat_sum(length.num as int, length.den * n, n);
            total.0 * length.den == length.num * total.1
        }),
{
    lemma_score_conservation(t->Node_length, leaf_count(t));
}

} // verus!
