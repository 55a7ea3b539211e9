//! The expression tree and its mathematical model.
//!
//! A tree is a rose tree of operator nodes over signed integer literals.
//! Every node carries a `depth_cost` priority (cumulative ancestor cost,
//! filled in by [`Sexpr::update_depth_cost`]) and a preorder `id` used to key
//! the scheduler's side table of assignments.

use vstd::prelude::*;

verus! {

/// An operator, or an integer literal.
#[derive(Debug, Clone, Copy)]
pub enum OpType {
    Plus,
    Minus,
    Mul,
    Int(i64),
}

/// The fixed execution cost of each operator; literals cost nothing.
pub open spec fn op_cost(op: OpType) -> nat {
    match op {
        OpType::Plus => 2,
        OpType::Minus => 3,
        OpType::Mul => 10,
        OpType::Int(_) => 0,
    }
}

impl OpType {
    /// Fixed cost lookup: `+` is 2, `-` is 3, `*` is 10, a literal is 0.
    pub fn cost(&self) -> (c: usize)
        ensures
            c == op_cost(*self),
            c <= 10,
    {
        match self {
            OpType::Plus => 2,
            OpType::Minus => 3,
            OpType::Mul => 10,
            OpType::Int(_) => 0,
        }
    }
}

/// An expression node: an operator with an ordered list of children, or a
/// literal with none.  `depth_cost` and `id` are derived annotations; the
/// schedule itself lives in a side table indexed by `id`.
#[derive(Debug)]
pub struct Sexpr {
    pub op: OpType,
    pub sexprs: Vec<Sexpr>,
    pub depth_cost: usize,
    pub id: usize,
}

/// The arithmetic value of a tree.
///
/// `Plus` folds `+` from 0; `Mul` folds `*` from 1; `Minus` yields 0 with no
/// children, the negation of a single child, and otherwise a left fold of
/// subtraction from the first child's value.
pub open spec fn interp(e: Sexpr) -> int
    decreases e, e.sexprs@.len(), 1int,
{
    match e.op {
        OpType::Int(n) => n as int,
        OpType::Plus => sum_vals(e, e.sexprs@.len() as int),
        OpType::Mul => prod_vals(e, e.sexprs@.len() as int),
        OpType::Minus => {
            if e.sexprs@.len() == 0 {
                0
            } else if e.sexprs@.len() == 1 {
                -interp(e.sexprs@[0])
            } else {
                diff_vals(e, e.sexprs@.len() as int)
            }
        },
    }
}

/// Sum of the values of the first `k` children of `e`.
pub open spec fn sum_vals(e: Sexpr, k: int) -> int
    decreases e, k, 0int,
{
    if k <= 0 || k > e.sexprs@.len() {
        0
    } else {
        sum_vals(e, k - 1) + interp(e.sexprs@[k - 1])
    }
}

/// Product of the values of the first `k` children of `e`.
pub open spec fn prod_vals(e: Sexpr, k: int) -> int
    decreases e, k, 0int,
{
    if k <= 0 || k > e.sexprs@.len() {
        1
    } else {
        prod_vals(e, k - 1) * interp(e.sexprs@[k - 1])
    }
}

/// Left-fold subtraction over the first `k` children of `e`, starting from
/// the first child's value.
pub open spec fn diff_vals(e: Sexpr, k: int) -> int
    decreases e, k, 0int,
{
    if e.sexprs@.len() == 0 {
        0
    } else if k <= 1 {
        interp(e.sexprs@[0])
    } else if k > e.sexprs@.len() {
        diff_vals(e, e.sexprs@.len() as int)
    } else {
        diff_vals(e, k - 1) - interp(e.sexprs@[k - 1])
    }
}

/// Critical-path cost: the node's own cost plus the maximum critical-path
/// cost among its children — the completion time with unlimited workers.
pub open spec fn crit_cost(e: Sexpr) -> nat
    decreases e, e.sexprs@.len(), 1int,
{
    op_cost(e.op) + max_crit(e, e.sexprs@.len() as int)
}

/// Maximum critical-path cost among the first `k` children of `e` (0 if none).
pub open spec fn max_crit(e: Sexpr, k: int) -> nat
    decreases e, k, 0int,
{
    if k <= 0 || k > e.sexprs@.len() {
        0
    } else {
        let rest = max_crit(e, k - 1);
        let c = crit_cost(e.sexprs@[k - 1]);
        if c > rest {
            c
        } else {
            rest
        }
    }
}

/// Total work: the sum of the operator costs of every node in the tree.
pub open spec fn work_cost(e: Sexpr) -> nat
    decreases e, e.sexprs@.len(), 1int,
{
    op_cost(e.op) + sum_work(e, e.sexprs@.len() as int)
}

/// Sum of the total work of the first `k` children of `e`.
pub open spec fn sum_work(e: Sexpr, k: int) -> nat
    decreases e, k, 0int,
{
    if k <= 0 || k > e.sexprs@.len() {
        0
    } else {
        sum_work(e, k - 1) + work_cost(e.sexprs@[k - 1])
    }
}

/// Number of nodes in the tree.
pub open spec fn size(e: Sexpr) -> nat
    decreases e, e.sexprs@.len(), 1int,
{
    1 + size_list(e, e.sexprs@.len() as int)
}

/// Total number of nodes in the first `k` children of `e`.
pub open spec fn size_list(e: Sexpr, k: int) -> nat
    decreases e, k, 0int,
{
    if k <= 0 || k > e.sexprs@.len() {
        0
    } else {
        size_list(e, k - 1) + size(e.sexprs@[k - 1])
    }
}

/// The nodes of `e` carry preorder ids: `e` itself has id `lo`, and each
/// child's subtree occupies the ids directly after its left siblings'.
/// All ids in the subtree then lie in `[lo, lo + size(e))` and are distinct.
pub open spec fn ids_from(e: Sexpr, lo: int) -> bool
    decreases e, e.sexprs@.len(), 1int,
{
    e.id == lo && ids_list(e, e.sexprs@.len() as int, lo + 1)
}

/// The first `k` children of `e` carry preorder ids packed from `lo` on.
pub open spec fn ids_list(e: Sexpr, k: int, lo: int) -> bool
    decreases e, k, 0int,
{
    if k <= 0 || k > e.sexprs@.len() {
        true
    } else {
        ids_list(e, k - 1, lo) && ids_from(e.sexprs@[k - 1], lo + size_list(e, k - 1))
    }
}

/// Every node's `depth_cost` is zero: the state of a freshly parsed tree.
pub open spec fn depths_zero(e: Sexpr) -> bool
    decreases e,
{
    &&& e.depth_cost == 0
    &&& forall|i: int| 0 <= i < e.sexprs@.len() ==> depths_zero(#[trigger] e.sexprs@[i])
}

/// Every operator node has at least one child, as the grammar guarantees.
pub open spec fn arity_ok(e: Sexpr) -> bool
    decreases e,
{
    &&& (!(e.op is Int) ==> e.sexprs@.len() >= 1)
    &&& forall|i: int| 0 <= i < e.sexprs@.len() ==> arity_ok(#[trigger] e.sexprs@[i])
}

/// Node counts over prefixes of children are monotone in the prefix length.
pub proof fn lemma_size_list_mono(e: Sexpr, j: int, k: int)
    requires
        0 <= j <= k <= e.sexprs@.len(),
    ensures
        size_list(e, j) <= size_list(e, k),
    decreases k - j,
{
    if j < k {
        lemma_size_list_mono(e, j, k - 1);
    }
}

/// Literal nodes have no children.
pub open spec fn leafs_ok(e: Sexpr) -> bool
    decreases e,
{
    &&& (e.op is Int ==> e.sexprs@.len() == 0)
    &&& forall|i: int| 0 <= i < e.sexprs@.len() ==> leafs_ok(#[trigger] e.sexprs@[i])
}

/// `x` fits in a signed 64-bit integer.
pub open spec fn in_i64(x: int) -> bool {
    i64::MIN <= x <= i64::MAX
}

/// Left-to-right evaluation of `e` never leaves the signed 64-bit range:
/// every child evaluates within range, and every intermediate accumulator of
/// the fold does too.
pub open spec fn interp_fits(e: Sexpr) -> bool
    decreases e, e.sexprs@.len(), 1int,
{
    match e.op {
        OpType::Int(_) => true,
        OpType::Plus => {
            &&& forall|i: int| 0 <= i < e.sexprs@.len() ==> interp_fits(#[trigger] e.sexprs@[i])
            &&& forall|k: int| 0 <= k <= e.sexprs@.len() ==> in_i64(#[trigger] sum_vals(e, k))
        },
        OpType::Mul => {
            &&& forall|i: int| 0 <= i < e.sexprs@.len() ==> interp_fits(#[trigger] e.sexprs@[i])
            &&& forall|k: int| 0 <= k <= e.sexprs@.len() ==> in_i64(#[trigger] prod_vals(e, k))
        },
        OpType::Minus => {
            if e.sexprs@.len() == 0 {
                true
            } else if e.sexprs@.len() == 1 {
                interp_fits(e.sexprs@[0]) && in_i64(-interp(e.sexprs@[0]))
            } else {
                &&& forall|i: int| 0 <= i < e.sexprs@.len() ==> interp_fits(#[trigger] e.sexprs@[i])
                &&& forall|k: int| 1 <= k <= e.sexprs@.len() ==> in_i64(#[trigger] diff_vals(e, k))
            }
        },
    }
}

/// Every node's `depth_cost` equals `base` plus the cost of its ancestors
/// below the root on which `base` was given: the annotation that
/// [`Sexpr::update_depth_cost`] establishes.
pub open spec fn depth_from(e: Sexpr, base: nat) -> bool
    decreases e,
{
    &&& e.depth_cost == base
    &&& forall|i: int| 0 <= i < e.sexprs@.len() ==> depth_from(
        #[trigger] e.sexprs@[i],
        base + op_cost(e.op),
    )
}

/// `a` and `b` are the same tree apart from their `depth_cost` annotations.
pub open spec fn same_shape(a: Sexpr, b: Sexpr) -> bool
    decreases a,
{
    &&& a.op == b.op
    &&& a.id == b.id
    &&& a.sexprs@.len() == b.sexprs@.len()
    &&& forall|i: int| 0 <= i < a.sexprs@.len() ==> same_shape(
        #[trigger] a.sexprs@[i],
        b.sexprs@[i],
    )
}

/// Trees of the same shape agree on every metric that ignores the depth
/// annotations: node count, total work, critical path, and the absence of
/// children under literals.
pub proof fn lemma_same_shape_metrics(a: Sexpr, b: Sexpr)
    requires
        same_shape(a, b),
    ensures
        size(a) == size(b),
        work_cost(a) == work_cost(b),
        crit_cost(a) == crit_cost(b),
        leafs_ok(a) == leafs_ok(b),
    decreases a, a.sexprs@.len(), 1int,
{
    lemma_same_shape_metrics_list(a, b, a.sexprs@.len() as int);
    if leafs_ok(a) {
        assert forall|i: int| 0 <= i < b.sexprs@.len() implies leafs_ok(
            #[trigger] b.sexprs@[i],
        ) by {
            assert(leafs_ok(a.sexprs@[i]));
        }
    }
    if leafs_ok(b) {
        assert forall|i: int| 0 <= i < a.sexprs@.len() implies leafs_ok(
            #[trigger] a.sexprs@[i],
        ) by {
            assert(leafs_ok(b.sexprs@[i]));
        }
    }
}

/// List companion of [`lemma_same_shape_metrics`].
proof fn lemma_same_shape_metrics_list(a: Sexpr, b: Sexpr, k: int)
    requires
        same_shape(a, b),
        0 <= k <= a.sexprs@.len(),
    ensures
        size_list(a, k) == size_list(b, k),
        sum_work(a, k) == sum_work(b, k),
        max_crit(a, k) == max_crit(b, k),
        forall|i: int| 0 <= i < k ==> leafs_ok(#[trigger] a.sexprs@[i]) == leafs_ok(
            b.sexprs@[i],
        ),
    decreases a, k, 0int,
{
    if k > 0 {
        lemma_same_shape_metrics_list(a, b, k - 1);
        lemma_same_shape_metrics(a.sexprs@[k - 1], b.sexprs@[k - 1]);
    }
}

/// Trees of the same shape carry the same preorder numbering.
pub proof fn lemma_same_shape_ids(a: Sexpr, b: Sexpr, lo: int)
    requires
        same_shape(a, b),
    ensures
        ids_from(a, lo) == ids_from(b, lo),
    decreases a, a.sexprs@.len(), 1int,
{
    lemma_same_shape_ids_list(a, b, a.sexprs@.len() as int, lo + 1);
}

/// List companion of [`lemma_same_shape_ids`].
proof fn lemma_same_shape_ids_list(a: Sexpr, b: Sexpr, k: int, lo: int)
    requires
        same_shape(a, b),
        0 <= k <= a.sexprs@.len(),
    ensures
        ids_list(a, k, lo) == ids_list(b, k, lo),
    decreases a, k, 0int,
{
    if k > 0 {
        lemma_same_shape_ids_list(a, b, k - 1, lo);
        lemma_same_shape_metrics_list(a, b, k - 1);
        lemma_same_shape_ids(a.sexprs@[k - 1], b.sexprs@[k - 1], lo + size_list(a, k - 1));
    }
}

/// The maximum over a shorter prefix of children never exceeds the maximum
/// over a longer one.
pub proof fn lemma_max_crit_le(e: Sexpr, j: int, k: int)
    requires
        0 <= j <= k <= e.sexprs@.len(),
    ensures
        max_crit(e, j) <= max_crit(e, k),
    decreases k - j,
{
    if j < k {
        lemma_max_crit_le(e, j, k - 1);
    }
}

/// Work sums over prefixes of children are monotone in the prefix length.
pub proof fn lemma_sum_work_le(e: Sexpr, j: int, k: int)
    requires
        0 <= j <= k <= e.sexprs@.len(),
    ensures
        sum_work(e, j) <= sum_work(e, k),
    decreases k - j,
{
    if j < k {
        lemma_sum_work_le(e, j, k - 1);
    }
}

impl Sexpr {
    /// Evaluate the tree to its arithmetic value.
    ///
    /// Returns `None` exactly when the left-to-right evaluation would leave
    /// the signed 64-bit range at some step; otherwise the mathematical value
    /// of the tree.
    pub fn interpret(&self) -> (r: Option<i64>)
        ensures
            (r matches Some(v) ==> interp_fits(*self) && v == interp(*self)),
            r is None ==> !interp_fits(*self),
        decreases *self,
    {
        match self.op {
            OpType::Int(n) => Some(n),
            OpType::Plus => {
                let mut acc: i64 = 0;
                let mut i: usize = 0;
                while i < self.sexprs.len()
                    invariant
                        i <= self.sexprs@.len(),
                        self.op is Plus,
                        acc == sum_vals(*self, i as int),
                        forall|j: int| 0 <= j < i ==> interp_fits(#[trigger] self.sexprs@[j]),
                        forall|k: int| 0 <= k <= i ==> in_i64(#[trigger] sum_vals(*self, k)),
                    decreases self.sexprs@.len() - i,
                {
                    match self.sexprs[i].interpret() {
                        None => {
                            proof {
                                assert(!interp_fits(*self)) by {
                                    if interp_fits(*self) {
                                        assert(interp_fits(self.sexprs@[i as int]));
                                    }
                                }
                            }
                            return None;
                        },
                        Some(v) => {
                            assert(acc + v == sum_vals(*self, i + 1));
                            match acc.checked_add(v) {
                                None => {
                                    proof {
                                        assert(!interp_fits(*self)) by {
                                            if interp_fits(*self) {
                                                assert(in_i64(sum_vals(*self, i + 1)));
                                            }
                                        }
                                    }
                                    return None;
                                },
                                Some(w) => {
                                    acc = w;
                                },
                            }
                        },
                    }
                    i += 1;
                }
                Some(acc)
            },
            OpType::Mul => {
                let mut acc: i64 = 1;
                let mut i: usize = 0;
                while i < self.sexprs.len()
                    invariant
                        i <= self.sexprs@.len(),
                        self.op is Mul,
                        acc == prod_vals(*self, i as int),
                        forall|j: int| 0 <= j < i ==> interp_fits(#[trigger] self.sexprs@[j]),
                        forall|k: int| 0 <= k <= i ==> in_i64(#[trigger] prod_vals(*self, k)),
                    decreases self.sexprs@.len() - i,
                {
                    match self.sexprs[i].interpret() {
                        None => {
                            proof {
                                assert(!interp_fits(*self)) by {
                                    if interp_fits(*self) {
                                        assert(interp_fits(self.sexprs@[i as int]));
                                    }
                                }
                            }
                            return None;
                        },
                        Some(v) => {
                            assert(acc * v == prod_vals(*self, i + 1));
                            match acc.checked_mul(v) {
                                None => {
                                    proof {
                                        assert(!interp_fits(*self)) by {
                                            if interp_fits(*self) {
                                                assert(in_i64(prod_vals(*self, i + 1)));
                                            }
                                        }
                                    }
                                    return None;
                                },
                                Some(w) => {
                                    acc = w;
                                },
                            }
                        },
                    }
                    i += 1;
                }
                Some(acc)
            },
            OpType::Minus => {
                if self.sexprs.len() == 0 {
                    Some(0)
                } else if self.sexprs.len() == 1 {
                    match self.sexprs[0].interpret() {
                        None => None,
                        Some(v) => {
                            if v == i64::MIN {
                                None
                            } else {
                                Some(-v)
                            }
                        },
                    }
                } else {
                    let first = self.sexprs[0].interpret();
                    match first {
                        None => None,
                        Some(v0) => {
                            let mut acc: i64 = v0;
                            let mut i: usize = 1;
                            while i < self.sexprs.len()
                                invariant
                                    1 <= i <= self.sexprs@.len(),
                                    self.sexprs@.len() >= 2,
                                    self.op is Minus,
                                    acc == diff_vals(*self, i as int),
                                    forall|j: int| 0 <= j < i ==> interp_fits(
                                        #[trigger] self.sexprs@[j],
                                    ),
                                    forall|k: int| 1 <= k <= i ==> in_i64(
                                        #[trigger] diff_vals(*self, k),
                                    ),
                                decreases self.sexprs@.len() - i,
                            {
                                match self.sexprs[i].interpret() {
                                    None => {
                                        proof {
                                            assert(!interp_fits(*self)) by {
                                                if interp_fits(*self) {
                                                    assert(interp_fits(self.sexprs@[i as int]));
                                                }
                                            }
                                        }
                                        return None;
                                    },
                                    Some(v) => {
                                        assert(acc - v == diff_vals(*self, i + 1));
                                        match acc.checked_sub(v) {
                                            None => {
                                                proof {
                                                    assert(!interp_fits(*self)) by {
                                                        if interp_fits(*self) {
                                                            assert(in_i64(diff_vals(*self, i + 1)));
                                                        }
                                                    }
                                                }
                                                return None;
                                            },
                                            Some(w) => {
                                                acc = w;
                                            },
                                        }
                                    },
                                }
                                i += 1;
                            }
                            Some(acc)
                        },
                    }
                }
            },
        }
    }

    /// Critical-path cost of the tree: its own operator cost plus the largest
    /// critical-path cost among its children.
    pub fn network_cost(&self) -> (c: usize)
        requires
            crit_cost(*self) <= usize::MAX,
        ensures
            c == crit_cost(*self),
        decreases *self,
    {
        let mut m: usize = 0;
        let mut i: usize = 0;
        while i < self.sexprs.len()
            invariant
                i <= self.sexprs@.len(),
                m == max_crit(*self, i as int),
                crit_cost(*self) <= usize::MAX,
            decreases self.sexprs@.len() - i,
        {
            proof {
                assert(crit_cost(self.sexprs@[i as int]) <= max_crit(*self, i + 1));
                lemma_max_crit_le(*self, i + 1, self.sexprs@.len() as int);
            }
            let c = self.sexprs[i].network_cost();
            if c > m {
                m = c;
            }
            i += 1;
        }
        self.op.cost() + m
    }

    /// Total work of the tree: the sum of all operator costs in it.
    pub fn total_work(&self) -> (w: usize)
        requires
            work_cost(*self) <= usize::MAX,
        ensures
            w == work_cost(*self),
        decreases *self,
    {
        let mut acc: usize = 0;
        let mut i: usize = 0;
        while i < self.sexprs.len()
            invariant
                i <= self.sexprs@.len(),
                acc == sum_work(*self, i as int),
                work_cost(*self) <= usize::MAX,
            decreases self.sexprs@.len() - i,
        {
            proof {
                lemma_sum_work_le(*self, i + 1, self.sexprs@.len() as int);
            }
            let w = self.sexprs[i].total_work();
            acc = acc + w;
            i += 1;
        }
        self.op.cost() + acc
    }

    /// Whether this node is a literal leaf, which costs nothing and is
    /// never scheduled.
    pub fn is_leaf(&self) -> (r: bool)
        ensures
            r == (self.op is Int),
    {
        match self.op {
            OpType::Int(_) => true,
            _ => false,
        }
    }

    /// The node's ordered children.
    pub fn children_of(&self) -> (r: &Vec<Sexpr>)
        ensures
            r == &self.sexprs,
    {
        &self.sexprs
    }

    /// The node's operator or literal.
    pub fn operator_of(&self) -> (r: OpType)
        ensures
            r == self.op,
    {
        self.op
    }

    /// Number of nodes in the tree, itself included.
    pub fn node_count(&self) -> (c: usize)
        requires
            size(*self) <= usize::MAX,
        ensures
            c == size(*self),
        decreases *self,
    {
        let mut acc: usize = 1;
        let mut i: usize = 0;
        while i < self.sexprs.len()
            invariant
                i <= self.sexprs@.len(),
                acc == 1 + size_list(*self, i as int),
                size(*self) <= usize::MAX,
            decreases self.sexprs@.len() - i,
        {
            proof {
                lemma_size_list_mono(*self, i + 1, self.sexprs@.len() as int);
            }
            let c = self.sexprs[i].node_count();
            acc = acc + c;
            i += 1;
        }
        acc
    }

    /// Annotate every node with its depth cost: the root gets `cost`, and
    /// each child gets its parent's annotation plus the parent's operator
    /// cost.  Structure, operators and ids are untouched.
    pub fn update_depth_cost(&mut self, cost: usize)
        requires
            cost + crit_cost(*old(self)) <= usize::MAX,
        ensures
            depth_from(*final(self), cost as nat),
            same_shape(*final(self), *old(self)),
            size(*final(self)) == size(*old(self)),
            work_cost(*final(self)) == work_cost(*old(self)),
            crit_cost(*final(self)) == crit_cost(*old(self)),
            leafs_ok(*old(self)) ==> leafs_ok(*final(self)),
            ids_from(*old(self), 0) ==> ids_from(*final(self), 0),
        decreases *old(self),
    {
        self.depth_cost = cost;
        let c = self.op.cost();
        let mut i: usize = 0;
        while i < self.sexprs.len()
            invariant
                i <= self.sexprs@.len(),
                self.op == old(self).op,
                self.id == old(self).id,
                self.depth_cost == cost,
                self.sexprs@.len() == old(self).sexprs@.len(),
                c == op_cost(self.op),
                cost + crit_cost(*old(self)) <= usize::MAX,
                forall|j: int| i <= j < self.sexprs@.len() ==> self.sexprs@[j] == old(
                    self,
                ).sexprs@[j],
                forall|j: int| 0 <= j < i ==> depth_from(#[trigger] self.sexprs@[j], (cost + c) as nat)
                    && same_shape(self.sexprs@[j], old(self).sexprs@[j]),
            decreases self.sexprs@.len() - i,
        {
            proof {
                assert(crit_cost(old(self).sexprs@[i as int]) <= max_crit(*old(self), i + 1));
                lemma_max_crit_le(*old(self), i + 1, old(self).sexprs@.len() as int);
                assert(decreases_to!(*old(self) => old(self).sexprs@[i as int]));
            }
            self.sexprs[i].update_depth_cost(cost + c);
            i += 1;
        }
        proof {
            lemma_same_shape_metrics(*self, *old(self));
            lemma_same_shape_ids(*self, *old(self), 0);
        }
    }
}

} // verus!
