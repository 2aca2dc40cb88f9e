//! The dependency-graph value engine: numeric nodes whose values are
//! derived from earlier nodes through declared operator chains, with
//! incremental recomputation after deltas are pushed in.
//!
//! Parents must be registered before children, so every stored parent
//! index is strictly below its owner's index.  That shape makes the
//! graph acyclic by construction and makes ascending index order a
//! topological order, which the recomputation pass exploits.

use vstd::prelude::*;

verus! {

use crate::ops::{Operator, apply_op, apply_operator, sat64, sat_add};

/// One node: a base value, the last published computed value, the
/// pending additive delta, and the ordered `(operator, parent)` chain
/// (empty for leaf nodes).
pub struct Value {
    pub base: i64,
    pub value: i64,
    pub change: i64,
    pub paras: Vec<(Operator, u16)>,
}

/// The authoritative node list of one graph instance.
pub struct ValueManager {
    pub values: Vec<Value>,
}

/// Configuration errors of the graph's construction API, detected at
/// setup time.
#[derive(Clone, Copy, Debug, PartialEq, Eq, Structural)]
pub enum GraphError {
    /// A declared parent id does not (yet) exist.
    MissingParent,
    /// The named node id is outside the graph.
    OutOfRange,
    /// The node cannot be removed while another node reads it.
    NodeReferenced,
}

/// Every stored parent index points strictly below its owner, so the
/// graph is acyclic and index order is a topological order.
pub open spec fn wf_nodes(nodes: Seq<Value>) -> bool {
    forall|i: int, k: int|
        0 <= i < nodes.len() && 0 <= k < nodes[i].paras@.len() ==> (#[trigger] nodes[i].paras@[k]).1
            < i
}

/// The published value of every node, in node order.
pub open spec fn node_values(nodes: Seq<Value>) -> Seq<i64> {
    Seq::new(nodes.len(), |i: int| nodes[i].value)
}

/// Fold a base value left-to-right through an operator chain, reading
/// each named parent's value from `vals`.
pub open spec fn fold_ops(base: int, ops: Seq<(Operator, u16)>, vals: Seq<i64>) -> int
    decreases ops.len(),
{
    if ops.len() == 0 {
        base
    } else {
        apply_op(
            ops.last().0,
            fold_ops(base, ops.drop_last(), vals),
            vals[ops.last().1 as int] as int,
        )
    }
}

/// A node's published value equals the fold of its base through its
/// operator chain against the currently published parent values.
pub open spec fn node_consistent(nodes: Seq<Value>, i: int) -> bool {
    nodes[i].value as int == fold_ops(nodes[i].base as int, nodes[i].paras@, node_values(nodes))
}

pub open spec fn consistent(nodes: Seq<Value>) -> bool {
    forall|i: int| 0 <= i < nodes.len() ==> #[trigger] node_consistent(nodes, i)
}

/// Parent entry `j` of node `i` names an influenced parent.
spec fn influenced_via(nodes: Seq<Value>, i: int, j: int) -> bool {
    let p = nodes[i].paras@[j].1 as int;
    0 <= p < i && influenced(nodes, p)
}

/// Node `i` must be recomputed this pass: it has a pending delta, or
/// one of its (transitive) ancestors has.
pub open spec fn influenced(nodes: Seq<Value>, i: int) -> bool
    decreases i, nodes[i].paras@.len() + 1,
{
    nodes[i].change != 0 || parent_influenced(nodes, i, nodes[i].paras@.len() as int)
}

pub open spec fn parent_influenced(nodes: Seq<Value>, i: int, k: int) -> bool
    decreases i, k,
{
    if k <= 0 {
        false
    } else {
        let p = nodes[i].paras@[k - 1].1 as int;
        (0 <= p < i && influenced(nodes, p)) || parent_influenced(nodes, i, k - 1)
    }
}

proof fn lemma_parent_influenced_exists(nodes: Seq<Value>, i: int, k: int)
    requires
        0 <= k <= nodes[i].paras@.len(),
    ensures
        parent_influenced(nodes, i, k) <==> exists|j: int|
            0 <= j < k && #[trigger] influenced_via(nodes, i, j),
    decreases k,
{
    if k > 0 {
        lemma_parent_influenced_exists(nodes, i, k - 1);
        if influenced_via(nodes, i, k - 1) {
            assert(parent_influenced(nodes, i, k));
        }
    }
}

/// Folding is insensitive to renaming parents and to changes of values
/// at positions the chain does not read.
proof fn lemma_fold_reindex(
    base: int,
    ops1: Seq<(Operator, u16)>,
    ops2: Seq<(Operator, u16)>,
    vals1: Seq<i64>,
    vals2: Seq<i64>,
)
    requires
        ops1.len() == ops2.len(),
        forall|m: int| 0 <= m < ops1.len() ==> (#[trigger] ops2[m]).0 == ops1[m].0,
        forall|m: int|
            0 <= m < ops1.len() ==> vals2[(#[trigger] ops2[m]).1 as int] == vals1[ops1[m].1 as int],
    ensures
        fold_ops(base, ops2, vals2) == fold_ops(base, ops1, vals1),
    decreases ops1.len(),
{
    if ops1.len() > 0 {
        assert(forall|m: int|
            0 <= m < ops1.len() - 1 ==> (#[trigger] ops1.drop_last()[m]) == ops1[m]);
        assert(forall|m: int|
            0 <= m < ops2.len() - 1 ==> (#[trigger] ops2.drop_last()[m]) == ops2[m]);
        lemma_fold_reindex(base, ops1.drop_last(), ops2.drop_last(), vals1, vals2);
    }
}

/// Node `i` reads node `a`, directly or transitively (or is `a`
/// itself): `a` feeds `i`.
pub open spec fn feeds(nodes: Seq<Value>, a: int, i: int) -> bool
    decreases i, nodes[i].paras@.len() + 1,
{
    i == a || parent_feeds(nodes, a, i, nodes[i].paras@.len() as int)
}

pub open spec fn parent_feeds(nodes: Seq<Value>, a: int, i: int, k: int) -> bool
    decreases i, k,
{
    if k <= 0 {
        false
    } else {
        let p = nodes[i].paras@[k - 1].1 as int;
        (0 <= p < i && feeds(nodes, a, p)) || parent_feeds(nodes, a, i, k - 1)
    }
}

/// Parent entry `j` of node `i` names a parent that `a` feeds.
spec fn feeds_via(nodes: Seq<Value>, a: int, i: int, j: int) -> bool {
    let p = nodes[i].paras@[j].1 as int;
    0 <= p < i && feeds(nodes, a, p)
}

proof fn lemma_parent_feeds_exists(nodes: Seq<Value>, a: int, i: int, k: int)
    requires
        0 <= k <= nodes[i].paras@.len(),
    ensures
        parent_feeds(nodes, a, i, k) <==> exists|j: int|
            0 <= j < k && #[trigger] feeds_via(nodes, a, i, j),
    decreases k,
{
    if k > 0 {
        lemma_parent_feeds_exists(nodes, a, i, k - 1);
        if feeds_via(nodes, a, i, k - 1) {
            assert(parent_feeds(nodes, a, i, k));
        }
    }
}

/// Parent entry `j` of node `i` is marked in the dirty set `flags`.
spec fn parent_dirty(nodes: Seq<Value>, flags: Seq<bool>, i: int, j: int) -> bool {
    flags[nodes[i].paras@[j].1 as int]
}

/// After the commit phase, a node carries its old operator chain, a
/// zeroed delta slot, and its old base with the old delta folded in.
pub open spec fn committed(pre: Value, post: Value) -> bool {
    &&& post.paras@ == pre.paras@
    &&& post.change == 0
    &&& post.base as int == sat64(pre.base + pre.change)
}

/// One `(operator, parent)` entry after the indices above a removed
/// node `k` were shifted down by one.
pub open spec fn shifted_entry(e1: (Operator, u16), e2: (Operator, u16), k: int) -> bool {
    &&& e2.0 == e1.0
    &&& e2.1 as int == if e1.1 as int > k {
        e1.1 - 1
    } else {
        e1.1 as int
    }
}

/// A node after removal of node `k`: scalars kept, every stored parent
/// reference above `k` shifted down by one.
pub open spec fn shifted_node(pre: Value, post: Value, k: int) -> bool {
    &&& post.base == pre.base
    &&& post.value == pre.value
    &&& post.change == pre.change
    &&& post.paras@.len() == pre.paras@.len()
    &&& forall|m: int|
        0 <= m < pre.paras@.len() ==> shifted_entry(pre.paras@[m], #[trigger] post.paras@[m], k)
}

/// Some node stores `k` as a parent reference.
pub open spec fn references(nodes: Seq<Value>, k: int) -> bool {
    exists|i: int, m: int|
        0 <= i < nodes.len() && 0 <= m < nodes[i].paras@.len() && (#[trigger] nodes[i].paras@[m]).1
            == k
}

impl ValueManager {
    /// Well-formedness: acyclic by construction, and every published
    /// value consistent with its parents' published values.
    pub open spec fn inv(&self) -> bool {
        wf_nodes(self.values@) && consistent(self.values@)
    }

    /// An empty manager pre-seeded with the five constant leaf nodes
    /// 0, 1, -1, 2 and -2 (ids 0 through 4), for use as fixed operands.
    pub fn new() -> (r: ValueManager)
        ensures
            r.inv(),
            r.values@.len() == 5,
            forall|i: int|
                0 <= i < 5 ==> (#[trigger] r.values@[i]).paras@.len() == 0 && r.values@[i].change
                    == 0 && r.values@[i].base == r.values@[i].value,
            r.values@[0].value == 0,
            r.values@[1].value == 1,
            r.values@[2].value == -1,
            r.values@[3].value == 2,
            r.values@[4].value == -2,
    {
        let mut values: Vec<Value> = Vec::new();
        values.push(Value { base: 0, value: 0, change: 0, paras: Vec::new() });
        values.push(Value { base: 1, value: 1, change: 0, paras: Vec::new() });
        values.push(Value { base: -1, value: -1, change: 0, paras: Vec::new() });
        values.push(Value { base: 2, value: 2, change: 0, paras: Vec::new() });
        values.push(Value { base: -2, value: -2, change: 0, paras: Vec::new() });
        let r = ValueManager { values };
        proof {
            assert forall|i: int| 0 <= i < r.values@.len() implies #[trigger] node_consistent(
                r.values@,
                i,
            ) by {
                assert(r.values@[i].paras@.len() == 0);
            }
        }
        r
    }

    /// Register a new node whose initial value is computed eagerly by
    /// folding `base` through the declared operator chain against the
    /// parents' current values.  Parents must already be registered:
    /// a forward (or self) reference is a configuration error and is
    /// rejected without changing the graph.
    pub fn add_value(&mut self, base: i64, paras: Vec<(Operator, u16)>) -> (r: Result<
        usize,
        GraphError,
    >)
        requires
            old(self).inv(),
        ensures
            final(self).inv(),
            ({
                let pre = old(self).values@;
                let post = final(self).values@;
                let parents_ok = forall|k: int|
                    0 <= k < paras@.len() ==> (#[trigger] paras@[k]).1 < pre.len();
                match r {
                    Ok(id) => {
                        &&& parents_ok
                        &&& id == pre.len()
                        &&& post.len() == pre.len() + 1
                        &&& forall|i: int| 0 <= i < pre.len() ==> post[i] == pre[i]
                        &&& post[id as int].base == base
                        &&& post[id as int].change == 0
                        &&& post[id as int].paras@ == paras@
                        &&& post[id as int].value as int == fold_ops(
                            base as int,
                            paras@,
                            node_values(pre),
                        )
                    },
                    Err(e) => {
                        &&& e == GraphError::MissingParent
                        &&& !parents_ok
                        &&& post == pre
                    },
                }
            }),
    {
        let n = self.values.len();
        let mut k: usize = 0;
        while k < paras.len()
            invariant
                forall|j: int| 0 <= j < k ==> (#[trigger] paras@[j]).1 < n,
                n == self.values@.len(),
                k <= paras@.len(),
                self == old(self),
                old(self).inv(),
            decreases paras@.len() - k,
        {
            if paras[k].1 as usize >= n {
                return Err(GraphError::MissingParent);
            }
            k = k + 1;
        }
        let mut acc = base;
        let mut k: usize = 0;
        proof {
            assert(paras@.take(0) =~= Seq::<(Operator, u16)>::empty());
        }
        while k < paras.len()
            invariant
                k <= paras@.len(),
                n == self.values@.len(),
                self == old(self),
                forall|j: int| 0 <= j < paras@.len() ==> (#[trigger] paras@[j]).1 < n,
                acc as int == fold_ops(base as int, paras@.take(k as int), node_values(self.values@)),
            decreases paras@.len() - k,
        {
            let (op, p) = paras[k];
            let pv = self.values[p as usize].value;
            acc = apply_operator(op, acc, pv);
            proof {
                assert(paras@.take(k + 1).drop_last() =~= paras@.take(k as int));
                assert(paras@.take(k + 1).last() == paras@[k as int]);
            }
            k = k + 1;
        }
        proof {
            assert(paras@.take(paras@.len() as int) =~= paras@);
        }
        let node = Value { base, value: acc, change: 0, paras };
        self.values.push(node);
        proof {
            let pre = old(self).values@;
            let post = self.values@;
            assert(forall|i: int| 0 <= i < pre.len() ==> post[i] == pre[i]);
            assert forall|i: int| 0 <= i < post.len() implies #[trigger] node_consistent(
                post,
                i,
            ) by {
                if i < pre.len() {
                    assert(node_consistent(pre, i));
                    lemma_fold_reindex(
                        post[i].base as int,
                        pre[i].paras@,
                        post[i].paras@,
                        node_values(pre),
                        node_values(post),
                    );
                } else {
                    lemma_fold_reindex(
                        base as int,
                        post[i].paras@,
                        post[i].paras@,
                        node_values(pre),
                        node_values(post),
                    );
                }
            }
        }
        Ok(n)
    }

    /// Add `delta` into a node's pending change slot.  This is the
    /// handle write external code performs; only `update` folds the
    /// accumulated delta into the base and republishes values.
    pub fn push_delta(&mut self, id: usize, delta: i64)
        requires
            old(self).inv(),
            id < old(self).values@.len(),
        ensures
            final(self).inv(),
            final(self).values@.len() == old(self).values@.len(),
            final(self).values@[id as int].change as int == sat64(
                old(self).values@[id as int].change + delta,
            ),
            final(self).values@[id as int].base == old(self).values@[id as int].base,
            final(self).values@[id as int].value == old(self).values@[id as int].value,
            final(self).values@[id as int].paras@ == old(self).values@[id as int].paras@,
            forall|i: int|
                0 <= i < final(self).values@.len() && i != id ==> final(self).values@[i] == old(
                    self,
                ).values@[i],
    {
        let c = self.values[id].change;
        self.values[id].change = sat_add(c, delta);
        proof {
            assert(node_values(self.values@) =~= node_values(old(self).values@));
            assert forall|i: int| 0 <= i < self.values@.len() implies #[trigger] node_consistent(
                self.values@,
                i,
            ) by {
                assert(node_consistent(old(self).values@, i));
                lemma_fold_reindex(
                    self.values@[i].base as int,
                    old(self).values@[i].paras@,
                    self.values@[i].paras@,
                    node_values(old(self).values@),
                    node_values(self.values@),
                );
            }
        }
    }

    /// Remove node `k` and re-index: every node above `k` moves down by
    /// one, and every stored parent reference above `k` is decremented,
    /// so no node is left referencing a nonexistent id.  A node that
    /// some other node still reads cannot be removed.  Cost is linear
    /// in graph size; removal is not designed to be frequent.
    pub fn remove_node(&mut self, k: usize) -> (r: Result<(), GraphError>)
        requires
            old(self).inv(),
        ensures
            final(self).inv(),
            ({
                let pre = old(self).values@;
                let post = final(self).values@;
                match r {
                    Ok(_) => {
                        &&& k < pre.len()
                        &&& !references(pre, k as int)
                        &&& post.len() == pre.len() - 1
                        &&& forall|i: int| 0 <= i < k ==> post[i] == pre[i]
                        &&& forall|i: int|
                            k <= i < post.len() ==> shifted_node(
                                pre[i + 1],
                                #[trigger] post[i],
                                k as int,
                            )
                    },
                    Err(e) => {
                        &&& post == pre
                        &&& (k >= pre.len() ==> e == GraphError::OutOfRange)
                        &&& (k < pre.len() ==> e == GraphError::NodeReferenced && references(
                            pre,
                            k as int,
                        ))
                    },
                }
            }),
    {
        let n = self.values.len();
        if k >= n {
            return Err(GraphError::OutOfRange);
        }
        let mut i: usize = 0;
        while i < n
            invariant
                self == old(self),
                old(self).inv(),
                n == self.values@.len(),
                i <= n,
                forall|ii: int, m: int|
                    0 <= ii < i && 0 <= m < self.values@[ii].paras@.len() ==> (
                    #[trigger] self.values@[ii].paras@[m]).1 != k,
            decreases n - i,
        {
            let m = self.values[i].paras.len();
            let mut j: usize = 0;
            while j < m
                invariant
                    self == old(self),
                    old(self).inv(),
                    i < n && n == self.values@.len(),
                    m == self.values@[i as int].paras@.len(),
                    j <= m,
                    forall|mm: int|
                        0 <= mm < j ==> (#[trigger] self.values@[i as int].paras@[mm]).1 != k,
                decreases m - j,
            {
                if self.values[i].paras[j].1 as usize == k {
                    proof {
                        assert(references(old(self).values@, k as int));
                    }
                    return Err(GraphError::NodeReferenced);
                }
                j = j + 1;
            }
            i = i + 1;
        }
        proof {
            assert forall|ii: int, m: int|
                0 <= ii < n && 0 <= m < old(self).values@[ii].paras@.len() implies (
            #[trigger] old(self).values@[ii].paras@[m]).1 != k by {}
            assert(!references(old(self).values@, k as int));
        }
        self.values.remove(k);
        let ghost mid = self.values@;
        let mut i: usize = k;
        while i < self.values.len()
            invariant
                old(self).inv(),
                self.values@.len() == old(self).values@.len() - 1,
                k <= i <= self.values@.len(),
                forall|j: int| 0 <= j < k ==> self.values@[j] == old(self).values@[j],
                forall|j: int|
                    k <= j < i ==> shifted_node(
                        old(self).values@[j + 1],
                        #[trigger] self.values@[j],
                        k as int,
                    ),
                forall|j: int|
                    i <= j < self.values@.len() ==> self.values@[j] == old(self).values@[j + 1],
                !references(old(self).values@, k as int),
            decreases self.values@.len() - i,
        {
            let m = self.values[i].paras.len();
            let mut j: usize = 0;
            while j < m
                invariant
                    old(self).inv(),
                    self.values@.len() == old(self).values@.len() - 1,
                    k <= i < self.values@.len(),
                    m == self.values@[i as int].paras@.len(),
                    j <= m,
                    self.values@[i as int].base == old(self).values@[i + 1].base,
                    self.values@[i as int].value == old(self).values@[i + 1].value,
                    self.values@[i as int].change == old(self).values@[i + 1].change,
                    m == old(self).values@[i + 1].paras@.len(),
                    forall|jj: int| 0 <= jj < k ==> self.values@[jj] == old(self).values@[jj],
                    forall|jj: int|
                        k <= jj < i ==> shifted_node(
                            old(self).values@[jj + 1],
                            #[trigger] self.values@[jj],
                            k as int,
                        ),
                    forall|jj: int|
                        i < jj < self.values@.len() ==> self.values@[jj] == old(self).values@[jj
                            + 1],
                    forall|mm: int|
                        0 <= mm < j ==> shifted_entry(
                            old(self).values@[i + 1].paras@[mm],
                            #[trigger] self.values@[i as int].paras@[mm],
                            k as int,
                        ),
                    forall|mm: int|
                        j <= mm < m ==> self.values@[i as int].paras@[mm] == old(self).values@[i
                            + 1].paras@[mm],
                    !references(old(self).values@, k as int),
                decreases m - j,
            {
                let (op, p) = self.values[i].paras[j];
                proof {
                    if p as usize == k {
                        assert((old(self).values@[i + 1].paras@[j as int]).1 == k);
                        assert(references(old(self).values@, k as int));
                    }
                }
                if p as usize > k {
                    self.values[i].paras[j] = (op, p - 1);
                }
                j = j + 1;
            }
            i = i + 1;
        }
        proof {
            let pre = old(self).values@;
            let post = self.values@;
            assert forall|ii: int, kk: int|
                0 <= ii < post.len() && 0 <= kk < post[ii].paras@.len() implies (
            #[trigger] post[ii].paras@[kk]).1 < ii by {
                if ii < k {
                    assert(pre[ii].paras@[kk].1 < ii);
                } else {
                    assert(shifted_entry(pre[ii + 1].paras@[kk], post[ii].paras@[kk], k as int));
                    assert(pre[ii + 1].paras@[kk].1 < ii + 1);
                    assert(pre[ii + 1].paras@[kk].1 != k);
                }
            }
            assert forall|ii: int| 0 <= ii < post.len() implies #[trigger] node_consistent(
                post,
                ii,
            ) by {
                if ii < k {
                    assert(node_consistent(pre, ii));
                    assert forall|m: int|
                        0 <= m < pre[ii].paras@.len() implies node_values(post)[(
                        #[trigger] post[ii].paras@[m]).1 as int] == node_values(
                            pre,
                        )[pre[ii].paras@[m].1 as int] by {
                        assert(pre[ii].paras@[m].1 < ii);
                    }
                    lemma_fold_reindex(
                        post[ii].base as int,
                        pre[ii].paras@,
                        post[ii].paras@,
                        node_values(pre),
                        node_values(post),
                    );
                } else {
                    assert(node_consistent(pre, ii + 1));
                    assert forall|m: int|
                        0 <= m < pre[ii + 1].paras@.len() implies node_values(post)[(
                        #[trigger] post[ii].paras@[m]).1 as int] == node_values(pre)[pre[ii
                        + 1].paras@[m].1 as int] by {
                        assert(shifted_entry(pre[ii + 1].paras@[m], post[ii].paras@[m], k as int));
                        assert(pre[ii + 1].paras@[m].1 < ii + 1);
                        assert(pre[ii + 1].paras@[m].1 != k);
                        let p = pre[ii + 1].paras@[m].1 as int;
                        if p > k {
                            assert(post[p - 1] == pre[p] || shifted_node(pre[p], post[p - 1], k as int));
                        }
                    }
                    lemma_fold_reindex(
                        post[ii].base as int,
                        pre[ii + 1].paras@,
                        post[ii].paras@,
                        node_values(pre),
                        node_values(post),
                    );
                }
            }
        }
        Ok(())
    }

    /// The incremental recomputation pass, run once per tick.
    ///
    /// Commit phase: every pending delta is folded (saturating) into its
    /// node's base and zeroed.  Expansion phase: the dirty set is closed
    /// under child edges, so every transitive descendant of a changed
    /// node is marked.  Recompute phase: dirty nodes are recomputed in
    /// ascending index order — a topological order here, since parents
    /// sit strictly below their children — so each node is recomputed
    /// exactly once, after all of its dependencies are final.
    ///
    /// The contract pins every published value: bases are committed,
    /// deltas are zeroed, a node no changed node feeds is untouched,
    /// and consistency (`inv`) forces each remaining node to equal the
    /// fold of its committed base against its parents' final values.
    pub fn update(&mut self)
        requires
            old(self).inv(),
        ensures
            final(self).inv(),
            final(self).values@.len() == old(self).values@.len(),
            forall|i: int|
                0 <= i < old(self).values@.len() ==> committed(
                    old(self).values@[i],
                    #[trigger] final(self).values@[i],
                ),
            forall|i: int|
                0 <= i < old(self).values@.len() && !influenced(old(self).values@, i) ==> (
                #[trigger] final(self).values@[i]).value == old(self).values@[i].value,
    {
        let n = self.values.len();
        let mut dirty: Vec<bool> = Vec::new();
        // Commit phase.
        let mut i: usize = 0;
        while i < n
            invariant
                old(self).inv(),
                n == self.values@.len() && n == old(self).values@.len(),
                i <= n,
                dirty@.len() == i,
                forall|j: int| i <= j < n ==> self.values@[j] == old(self).values@[j],
                forall|j: int|
                    0 <= j < i ==> dirty@[j] == (old(self).values@[j].change != 0),
                forall|j: int|
                    0 <= j < i ==> committed(old(self).values@[j], #[trigger] self.values@[j]),
                forall|j: int|
                    0 <= j < i ==> (#[trigger] self.values@[j]).value == old(self).values@[j].value,
            decreases n - i,
        {
            let ch = self.values[i].change;
            if ch != 0 {
                let b = self.values[i].base;
                self.values[i].base = sat_add(b, ch);
                self.values[i].change = 0;
                dirty.push(true);
            } else {
                dirty.push(false);
            }
            i = i + 1;
        }
        // Expansion phase: one ascending sweep reaches every transitive
        // descendant, because all edges point upward in index order.
        let mut i: usize = 0;
        while i < n
            invariant
                old(self).inv(),
                wf_nodes(self.values@),
                n == self.values@.len() && n == old(self).values@.len(),
                i <= n,
                dirty@.len() == n,
                forall|j: int|
                    0 <= j < n ==> committed(old(self).values@[j], #[trigger] self.values@[j]),
                forall|j: int|
                    0 <= j < n ==> (#[trigger] self.values@[j]).value == old(self).values@[j].value,
                forall|j: int|
                    0 <= j < i ==> dirty@[j] == influenced(old(self).values@, j),
                forall|j: int|
                    i <= j < n ==> dirty@[j] == (old(self).values@[j].change != 0),
            decreases n - i,
        {
            let already = dirty[i];
            let mut found = false;
            if !already {
                let m = self.values[i].paras.len();
                let mut k: usize = 0;
                while k < m
                    invariant
                        wf_nodes(self.values@),
                        i < n && n == self.values@.len(),
                        dirty@.len() == n,
                        m == self.values@[i as int].paras@.len(),
                        k <= m,
                        self.values@[i as int].paras@ == old(self).values@[i as int].paras@,
                        found == exists|j: int|
                            0 <= j < k && #[trigger] parent_dirty(self.values@, dirty@, i as int, j),
                    decreases m - k,
                {
                    let p = self.values[i].paras[k].1;
                    proof {
                        assert(self.values@[i as int].paras@[k as int].1 < i);
                    }
                    if dirty[p as usize] {
                        found = true;
                        proof {
                            assert(parent_dirty(self.values@, dirty@, i as int, k as int));
                        }
                    }
                    k = k + 1;
                }
            }
            proof {
                let pre = old(self).values@;
                let cur = self.values@;
                let len = pre[i as int].paras@.len() as int;
                lemma_parent_influenced_exists(pre, i as int, len);
                assert(cur[i as int].paras@ == pre[i as int].paras@);
                assert forall|j: int| 0 <= j < len implies (parent_dirty(cur, dirty@, i as int, j)
                    <==> influenced_via(pre, i as int, j)) by {
                    assert(pre[i as int].paras@[j].1 < i);
                }
                if !already {
                    if found {
                        let j = choose|j: int|
                            0 <= j < len && #[trigger] parent_dirty(cur, dirty@, i as int, j);
                        assert(influenced_via(pre, i as int, j));
                        assert(influenced(pre, i as int));
                    } else if parent_influenced(pre, i as int, len) {
                        let j = choose|j: int| 0 <= j < len && #[trigger] influenced_via(pre, i as int, j);
                        assert(parent_dirty(cur, dirty@, i as int, j));
                        assert(false);
                    }
                }
            }
            if !already && found {
                dirty[i] = true;
            }
            i = i + 1;
        }
        // Recompute phase, in ascending (topological) index order.
        let mut i: usize = 0;
        while i < n
            invariant
                old(self).inv(),
                wf_nodes(self.values@),
                n == self.values@.len() && n == old(self).values@.len(),
                i <= n,
                dirty@.len() == n,
                forall|j: int|
                    0 <= j < n ==> committed(old(self).values@[j], #[trigger] self.values@[j]),
                forall|j: int| 0 <= j < n ==> dirty@[j] == influenced(old(self).values@, j),
                forall|j: int|
                    i <= j < n ==> (#[trigger] self.values@[j]).value == old(self).values@[j].value,
                forall|j: int| 0 <= j < i ==> #[trigger] node_consistent(self.values@, j),
                forall|j: int|
                    0 <= j < i && !influenced(old(self).values@, j) ==> (
                    #[trigger] self.values@[j]).value == old(self).values@[j].value,
            decreases n - i,
        {
            if dirty[i] {
                let ghost snap = *self;
                let m = self.values[i].paras.len();
                let mut acc = self.values[i].base;
                let mut k: usize = 0;
                proof {
                    assert(snap.values@[i as int].paras@.take(0) =~= Seq::<(Operator, u16)>::empty());
                }
                while k < m
                    invariant
                        *self == snap,
                        i < n && n == self.values@.len(),
                        wf_nodes(self.values@),
                        m == self.values@[i as int].paras@.len(),
                        k <= m,
                        acc as int == fold_ops(
                            self.values@[i as int].base as int,
                            self.values@[i as int].paras@.take(k as int),
                            node_values(self.values@),
                        ),
                    decreases m - k,
                {
                    let (op, p) = self.values[i].paras[k];
                    proof {
                        assert(self.values@[i as int].paras@[k as int].1 < i);
                    }
                    let pv = self.values[p as usize].value;
                    acc = apply_operator(op, acc, pv);
                    proof {
                        let ops = self.values@[i as int].paras@;
                        assert(ops.take(k + 1).drop_last() =~= ops.take(k as int));
                        assert(ops.take(k + 1).last() == ops[k as int]);
                    }
                    k = k + 1;
                }
                proof {
                    let ops = self.values@[i as int].paras@;
                    assert(ops.take(m as int) =~= ops);
                }
                let ghost before = self.values@;
                self.values[i].value = acc;
                proof {
                    let cur = self.values@;
                    assert forall|j: int| 0 <= j <= i implies #[trigger] node_consistent(cur, j) by {
                        if j < i {
                            assert(node_consistent(before, j));
                        }
                        lemma_fold_reindex(
                            cur[j].base as int,
                            before[j].paras@,
                            cur[j].paras@,
                            node_values(before),
                            node_values(cur),
                        );
                    }
                }
            } else {
                proof {
                    let pre = old(self).values@;
                    let cur = self.values@;
                    let len = pre[i as int].paras@.len() as int;
                    lemma_parent_influenced_exists(pre, i as int, len);
                    assert(node_consistent(pre, i as int));
                    assert forall|mm: int|
                        0 <= mm < len implies node_values(cur)[(#[trigger] cur[i as int].paras@[mm]).1 as int]
                        == node_values(pre)[pre[i as int].paras@[mm].1 as int] by {
                        assert(pre[i as int].paras@[mm].1 < i);
                        let p = pre[i as int].paras@[mm].1 as int;
                        assert(!influenced_via(pre, i as int, mm));
                        assert(!influenced(pre, p));
                    }
                    lemma_fold_reindex(
                        cur[i as int].base as int,
                        pre[i as int].paras@,
                        cur[i as int].paras@,
                        node_values(pre),
                        node_values(cur),
                    );
                    assert(node_consistent(cur, i as int));
                }
            }
            i = i + 1;
        }
    }

    /// Number of registered nodes.
    pub fn len(&self) -> (n: usize)
        ensures
            n == self.values@.len(),
    {
        self.values.len()
    }

    /// The node's last published computed value (the read side of its
    /// handle).
    pub fn value_of(&self, id: usize) -> (v: i64)
        requires
            id < self.values@.len(),
        ensures
            v == self.values@[id as int].value,
    {
        self.values[id].value
    }

    /// The node's current base value.
    pub fn base_of(&self, id: usize) -> (v: i64)
        requires
            id < self.values@.len(),
        ensures
            v == self.values@[id as int].base,
    {
        self.values[id].base
    }
}

proof fn lemma_quiet_node(nodes: Seq<Value>, i: int)
    requires
        forall|j: int| 0 <= j < nodes.len() ==> (#[trigger] nodes[j]).change == 0,
        0 <= i < nodes.len(),
    ensures
        !influenced(nodes, i),
    decreases i,
{
    let len = nodes[i].paras@.len() as int;
    lemma_parent_influenced_exists(nodes, i, len);
    if influenced(nodes, i) {
        let j = choose|j: int| 0 <= j < len && #[trigger] influenced_via(nodes, i, j);
        let p = nodes[i].paras@[j].1 as int;
        lemma_quiet_node(nodes, p);
    }
}

/// With no pending delta anywhere, no node is influenced, so a
/// recomputation pass has nothing to recompute.
pub proof fn lemma_no_delta_no_influence(nodes: Seq<Value>)
    requires
        forall|j: int| 0 <= j < nodes.len() ==> (#[trigger] nodes[j]).change == 0,
    ensures
        forall|i: int| 0 <= i < nodes.len() ==> !influenced(nodes, i),
{
    assert forall|i: int| 0 <= i < nodes.len() implies !influenced(nodes, i) by {
        lemma_quiet_node(nodes, i);
    }
}

/// Idempotence of the recomputation pass: on a graph with no pending
/// deltas, any pass satisfying `update`'s contract leaves every node's
/// base and published value exactly as they were.
pub proof fn lemma_update_idempotent(pre: Seq<Value>, post: Seq<Value>)
    requires
        pre.len() == post.len(),
        forall|j: int| 0 <= j < pre.len() ==> (#[trigger] pre[j]).change == 0,
        forall|i: int| 0 <= i < pre.len() ==> committed(pre[i], #[trigger] post[i]),
        forall|i: int|
            0 <= i < pre.len() && !influenced(pre, i) ==> (#[trigger] post[i]).value
                == pre[i].value,
    ensures
        forall|i: int|
            0 <= i < pre.len() ==> (#[trigger] post[i]).value == pre[i].value && post[i].base
                == pre[i].base && post[i].change == pre[i].change,
{
    lemma_no_delta_no_influence(pre);
}

/// Topological convergence: under the consistency invariant that
/// `update` re-establishes, every node's published value is the fold of
/// its base through its operator chain against its parents' own final
/// (post-update) values — no node reads a parent that has not finished.
pub proof fn lemma_converged_fold(g: ValueManager, i: int)
    requires
        g.inv(),
        0 <= i < g.values@.len(),
    ensures
        g.values@[i].value as int == fold_ops(
            g.values@[i].base as int,
            g.values@[i].paras@,
            node_values(g.values@),
        ),
{
    assert(node_consistent(g.values@, i));
}

/// With exactly one node `a` carrying a pending delta, the influenced
/// nodes are exactly `a` and its transitive descendants: after a pass,
/// `a`'s base has moved by exactly the delta, descendants are
/// recomputed, and every other node's published value is untouched.
pub proof fn lemma_single_delta_influence(nodes: Seq<Value>, a: int, i: int)
    requires
        0 <= a < nodes.len(),
        forall|j: int| 0 <= j < nodes.len() && j != a ==> (#[trigger] nodes[j]).change == 0,
        0 <= i < nodes.len(),
    ensures
        influenced(nodes, i) <==> (nodes[a].change != 0 && feeds(nodes, a, i)),
    decreases i,
{
    let len = nodes[i].paras@.len() as int;
    lemma_parent_influenced_exists(nodes, i, len);
    lemma_parent_feeds_exists(nodes, a, i, len);
    assert forall|j: int| 0 <= j < len implies ((#[trigger] influenced_via(nodes, i, j)) <==> (
    nodes[a].change != 0 && feeds_via(nodes, a, i, j))) by {
        let p = nodes[i].paras@[j].1 as int;
        if 0 <= p < i {
            lemma_single_delta_influence(nodes, a, p);
        }
    }
    if influenced(nodes, i) {
        if nodes[i].change != 0 {
            assert(i == a);
        } else {
            let j = choose|j: int| 0 <= j < len && #[trigger] influenced_via(nodes, i, j);
            assert(nodes[a].change != 0 && feeds_via(nodes, a, i, j));
            assert(parent_feeds(nodes, a, i, len));
        }
    }
    if nodes[a].change != 0 && feeds(nodes, a, i) {
        if i == a {
            assert(influenced(nodes, i));
        } else {
            let j = choose|j: int| 0 <= j < len && #[trigger] feeds_via(nodes, a, i, j);
            assert(influenced_via(nodes, i, j));
            assert(parent_influenced(nodes, i, len));
        }
    }
}

} // verus!
