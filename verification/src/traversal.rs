//! Graph traversal: reachability along operand links and the topological
//! order rooted at a terminal node.
//!
//! The reachable set is computed by a depth-first walk with an explicit
//! work-stack and a visited table keyed by node index — node identity, never
//! numeric value — so each node is taken exactly once even when many paths
//! lead to it, and no recursion depth limit applies.  Because operands
//! always carry smaller indices than their consumers, listing the reachable
//! indices in increasing order yields a topological order: every node
//! appears after all of its operands.

use vstd::prelude::*;

verus! {

use crate::graph::{Graph, Op, op_wf, operands_of, wf_ops};

/// Node `n` lists `c` among its operands.
pub open spec fn edge(ops: Seq<Op>, n: usize, c: usize) -> bool {
    (n as int) < ops.len() && operands_of(ops[n as int]).contains(c)
}

/// Node `m` can be reached from node `n` by following operand links
/// (reflexively: every node reaches itself).
pub open spec fn reaches(ops: Seq<Op>, n: usize, m: usize) -> bool
    decreases n,
{
    n == m || exists|c: usize| #[trigger] edge(ops, n, c) && c < n && reaches(ops, c, m)
}

/// Operand links only lead to strictly smaller indices, so reachability
/// never climbs: whatever `n` reaches lies at or below `n`.
pub proof fn lemma_reaches_le(ops: Seq<Op>, n: usize, m: usize)
    requires
        reaches(ops, n, m),
    ensures
        m <= n,
    decreases n,
{
    if n != m {
        let c = choose|c: usize| #[trigger] edge(ops, n, c) && c < n && reaches(ops, c, m);
        lemma_reaches_le(ops, c, m);
    }
}

/// In a well-formed graph an operand edge lands strictly below its source.
pub proof fn lemma_edge_below(ops: Seq<Op>, n: usize, c: usize)
    requires
        wf_ops(ops),
        edge(ops, n, c),
    ensures
        c < n,
{
    let opnds = operands_of(ops[n as int]);
    let k = choose|k: int| 0 <= k < opnds.len() && opnds[k] == c;
    assert(op_wf(ops[n as int], n as int));
    assert(opnds[k] < n as int);
}

/// Extending a reachable path by one operand edge keeps it reachable.
pub proof fn lemma_reaches_step(ops: Seq<Op>, r: usize, n: usize, c: usize)
    requires
        wf_ops(ops),
        reaches(ops, r, n),
        edge(ops, n, c),
    ensures
        reaches(ops, r, c),
    decreases r,
{
    lemma_edge_below(ops, n, c);
    if r == n {
        assert(reaches(ops, c, c));
        assert(edge(ops, r, c) && c < r && reaches(ops, c, c));
    } else {
        let d = choose|d: usize| #[trigger] edge(ops, r, d) && d < r && reaches(ops, d, n);
        lemma_reaches_step(ops, d, n, c);
        assert(edge(ops, r, d) && d < r && reaches(ops, d, c));
    }
}

/// A visited table that contains `n` and is closed under operand edges
/// covers everything reachable from `n`.
proof fn lemma_closed_covers(ops: Seq<Op>, marks: Seq<bool>, n: usize, m: usize)
    requires
        marks.len() == ops.len(),
        (n as int) < ops.len(),
        marks[n as int],
        forall|a: usize, c: usize|
            (a as int) < ops.len() && marks[a as int] && #[trigger] edge(ops, a, c)
                ==> (c as int) < ops.len() && marks[c as int],
        reaches(ops, n, m),
    ensures
        (m as int) < ops.len() && marks[m as int],
    decreases n,
{
    if n != m {
        let c = choose|c: usize| #[trigger] edge(ops, n, c) && c < n && reaches(ops, c, m);
        lemma_closed_covers(ops, marks, c, m);
    }
}

/// How many entries of a visited table are set.
spec fn count_true(s: Seq<bool>) -> int
    decreases s.len(),
{
    if s.len() == 0 {
        0
    } else {
        count_true(s.drop_last()) + (if s.last() { 1int } else { 0int })
    }
}

proof fn lemma_count_true_le(s: Seq<bool>)
    ensures
        0 <= count_true(s) <= s.len(),
    decreases s.len(),
{
    if s.len() > 0 {
        lemma_count_true_le(s.drop_last());
    }
}

proof fn lemma_count_true_update(s: Seq<bool>, i: int)
    requires
        0 <= i < s.len(),
        !s[i],
    ensures
        count_true(s.update(i, true)) == count_true(s) + 1,
    decreases s.len(),
{
    let t = s.update(i, true);
    if i == s.len() - 1 {
        assert(t.drop_last() =~= s.drop_last());
    } else {
        assert(t.drop_last() =~= s.drop_last().update(i, true));
        lemma_count_true_update(s.drop_last(), i);
        assert(t.last() == s.last());
    }
}

/// Takes node `c` into the visited table and onto the work-stack, unless it
/// is already visited; marking is keyed purely on the node index.
fn visit_mark(c: usize, marks: &mut Vec<bool>, stack: &mut Vec<usize>)
    requires
        (c as int) < old(marks)@.len(),
    ensures
        final(marks)@.len() == old(marks)@.len(),
        final(marks)@[c as int],
        old(marks)@[c as int] ==> final(marks)@ == old(marks)@ && final(stack)@ == old(stack)@,
        !old(marks)@[c as int] ==> final(marks)@ == old(marks)@.update(c as int, true)
            && final(stack)@ == old(stack)@.push(c)
            && count_true(final(marks)@) == count_true(old(marks)@) + 1,
{
    if !marks[c] {
        proof {
            lemma_count_true_update(marks@, c as int);
        }
        marks.set(c, true);
        stack.push(c);
    }
}

/// The nodes among `0 .. n` reachable from `root`, in increasing index
/// order.
pub open spec fn topo_upto(ops: Seq<Op>, root: usize, n: int) -> Seq<usize>
    decreases n,
{
    if n <= 0 {
        Seq::empty()
    } else {
        let rest = topo_upto(ops, root, n - 1);
        if reaches(ops, root, (n - 1) as usize) {
            rest.push((n - 1) as usize)
        } else {
            rest
        }
    }
}

/// The topological order rooted at `root`: every node reachable from
/// `root`, exactly once, each after all of its operands.
pub open spec fn topo_spec(ops: Seq<Op>, root: usize) -> Seq<usize> {
    topo_upto(ops, root, ops.len() as int)
}

proof fn lemma_topo_upto_elems(ops: Seq<Op>, root: usize, n: int)
    requires
        0 <= n <= usize::MAX + 1,
    ensures
        forall|k: int|
            0 <= k < topo_upto(ops, root, n).len()
                ==> (#[trigger] topo_upto(ops, root, n)[k]) < n
                    && reaches(ops, root, topo_upto(ops, root, n)[k]),
        forall|k1: int, k2: int|
            0 <= k1 < k2 < topo_upto(ops, root, n).len()
                ==> topo_upto(ops, root, n)[k1] < topo_upto(ops, root, n)[k2],
        forall|m: usize|
            (m as int) < n && reaches(ops, root, m) ==> topo_upto(ops, root, n).contains(m),
    decreases n,
{
    if n > 0 {
        lemma_topo_upto_elems(ops, root, n - 1);
        let prev = topo_upto(ops, root, n - 1);
        let cur = topo_upto(ops, root, n);
        if reaches(ops, root, (n - 1) as usize) {
            assert(cur == prev.push((n - 1) as usize));
            assert forall|k1: int, k2: int|
                0 <= k1 < k2 < cur.len() implies cur[k1] < cur[k2] by {
                if k2 < cur.len() - 1 {
                    assert(cur[k1] == prev[k1] && cur[k2] == prev[k2]);
                } else {
                    assert(cur[k2] == (n - 1) as usize);
                    assert(cur[k1] == prev[k1]);
                    assert(prev[k1] < n - 1);
                }
            }
        }
        assert forall|m: usize| (m as int) < n && reaches(ops, root, m) implies cur.contains(m) by {
            if (m as int) < n - 1 {
                let k = choose|k: int| 0 <= k < prev.len() && prev[k] == m;
                assert(cur[k] == m);
            } else {
                assert(cur[cur.len() - 1] == m);
            }
        }
    }
}

impl Graph {
    /// Marks every node reachable from `root` by an explicit-stack
    /// depth-first walk over operand links, keyed on node index.
    pub(crate) fn reach_marks(&self, root: usize) -> (marks: Vec<bool>)
        requires
            self.wf(),
            root < self@.len(),
        ensures
            marks@.len() == self@.len(),
            forall|m: usize|
                (m as int) < self@.len()
                    ==> ((#[trigger] marks@[m as int]) <==> reaches(self@, root, m)),
    {
        let n = self.len();
        let mut marks: Vec<bool> = Vec::new();
        let mut i: usize = 0;
        while i < n
            invariant
                i <= n,
                marks@.len() == i,
                forall|j: int| 0 <= j < i ==> !(#[trigger] marks@[j]),
            decreases n - i,
        {
            marks.push(false);
            i += 1;
        }
        let ghost blank = marks@;
        marks.set(root, true);
        let mut stack: Vec<usize> = Vec::new();
        stack.push(root);
        proof {
            assert(reaches(self@, root, root));
            assert(stack@[0] == root);
            assert(stack@.contains(root));
            assert(marks@ == blank.update(root as int, true));
            assert forall|m: usize|
                (m as int) < self@.len() && marks@[m as int] implies m == root by {
                if m != root {
                    assert(!blank[m as int]);
                }
            }
        }
        while stack.len() != 0
            invariant
                self.wf(),
                root < self@.len(),
                marks@.len() == self@.len(),
                marks@[root as int],
                forall|k: int|
                    0 <= k < stack@.len()
                        ==> (#[trigger] stack@[k]) < self@.len() && marks@[stack@[k] as int],
                forall|k1: int, k2: int|
                    0 <= k1 < k2 < stack@.len() ==> stack@[k1] != stack@[k2],
                forall|m: usize|
                    (m as int) < self@.len() && (#[trigger] marks@[m as int])
                        ==> reaches(self@, root, m),
                forall|m: usize|
                    (m as int) < self@.len() && marks@[m as int] && !stack@.contains(m)
                        ==> forall|c: usize| #[trigger] edge(self@, m, c) ==> marks@[c as int],
            decreases self@.len() - count_true(marks@), stack@.len(),
        {
            proof {
                lemma_count_true_le(marks@);
            }
            let ghost marks0 = marks@;
            let ghost stack0 = stack@;
            let cur = stack.pop().unwrap();
            let ghost stack1 = stack@;
            proof {
                assert(stack1 =~= stack0.drop_last());
                assert forall|k: int| 0 <= k < stack1.len() implies stack1[k] != cur by {
                    assert(stack0[k] == stack1[k]);
                    assert(stack0[stack0.len() - 1] == cur);
                }
                assert(!stack1.contains(cur));
            }
            let op = self.node(cur);
            match op {
                Op::Leaf => {
                    proof {
                        assert forall|c: usize| #[trigger] edge(self@, cur, c)
                            implies marks@[c as int] by {
                            assert(operands_of(self@[cur as int]).len() == 0);
                        }
                    }
                }
                Op::Add(a, b) | Op::Mul(a, b) | Op::Div(a, b) => {
                    proof {
                        assert(op_wf(self@[cur as int], cur as int));
                        assert(operands_of(op)[0] == a && operands_of(op)[1] == b);
                        assert(a < cur && b < cur);
                        assert(operands_of(self@[cur as int]).contains(a));
                        assert(operands_of(self@[cur as int]).contains(b));
                        assert(edge(self@, cur, a) && edge(self@, cur, b));
                        lemma_reaches_step(self@, root, cur, a);
                        lemma_reaches_step(self@, root, cur, b);
                    }
                    visit_mark(a, &mut marks, &mut stack);
                    let ghost marks2 = marks@;
                    let ghost stack2 = stack@;
                    visit_mark(b, &mut marks, &mut stack);
                    proof {
                        assert forall|c: usize| #[trigger] edge(self@, cur, c)
                            implies marks@[c as int] by {
                            let opnds = operands_of(self@[cur as int]);
                            let k = choose|k: int| 0 <= k < opnds.len() && opnds[k] == c;
                            assert(c == a || c == b);
                            if c == a {
                                assert(marks2[a as int]);
                            }
                        }
                        assert forall|m: usize|
                            (m as int) < marks@.len() && marks@[m as int] && !marks0[m as int]
                                implies stack@.contains(m) by {
                            if marks2[m as int] {
                                assert(m == a);
                                assert(stack2[stack2.len() - 1] == a);
                                assert(stack2.contains(a));
                                let k = choose|k: int| 0 <= k < stack2.len() && stack2[k] == a;
                                assert(stack@[k] == a);
                            } else {
                                assert(m == b);
                                assert(stack@[stack@.len() - 1] == b);
                            }
                        }
                    }
                }
                Op::Neg(a) | Op::Tanh(a) => {
                    proof {
                        assert(op_wf(self@[cur as int], cur as int));
                        assert(operands_of(op)[0] == a);
                        assert(a < cur);
                        assert(operands_of(self@[cur as int]).contains(a));
                        assert(edge(self@, cur, a));
                        lemma_reaches_step(self@, root, cur, a);
                    }
                    visit_mark(a, &mut marks, &mut stack);
                    proof {
                        assert forall|c: usize| #[trigger] edge(self@, cur, c)
                            implies marks@[c as int] by {
                            let opnds = operands_of(self@[cur as int]);
                            let k = choose|k: int| 0 <= k < opnds.len() && opnds[k] == c;
                            assert(c == a);
                        }
                        assert forall|m: usize|
                            (m as int) < marks@.len() && marks@[m as int] && !marks0[m as int]
                                implies stack@.contains(m) by {
                            assert(m == a);
                            assert(stack@[stack@.len() - 1] == a);
                        }
                    }
                }
            }
            proof {
                lemma_count_true_le(marks@);
                // the prefix below the popped entry is still there
                assert forall|k: int| 0 <= k < stack1.len() implies stack@[k] == stack1[k] by {}
                assert(stack@.len() >= stack1.len());
                assert forall|m: usize|
                    (m as int) < self@.len() && marks@[m as int] && !stack@.contains(m)
                        implies forall|c: usize| #[trigger] edge(self@, m, c)
                            ==> marks@[c as int] by {
                    if m == cur {
                    } else if marks0[m as int] {
                        assert(!stack1.contains(m)) by {
                            if stack1.contains(m) {
                                let k = choose|k: int| 0 <= k < stack1.len() && stack1[k] == m;
                                assert(stack@[k] == m);
                            }
                        }
                        assert(!stack0.contains(m)) by {
                            if stack0.contains(m) {
                                let k = choose|k: int| 0 <= k < stack0.len() && stack0[k] == m;
                                if k < stack0.len() - 1 {
                                    assert(stack1[k] == m);
                                } else {
                                    assert(stack0[k] == cur);
                                }
                            }
                        }
                        assert forall|c: usize| #[trigger] edge(self@, m, c)
                            implies marks@[c as int] by {
                            assert(marks0[c as int]);
                        }
                    } else {
                        assert(stack@.contains(m));
                    }
                }
            }
        }
        proof {
            assert forall|m: usize| (m as int) < self@.len()
                implies ((#[trigger] marks@[m as int]) <==> reaches(self@, root, m)) by {
                if reaches(self@, root, m) {
                    assert forall|a: usize, c: usize|
                        (a as int) < self@.len() && marks@[a as int] && #[trigger] edge(self@, a, c)
                            implies (c as int) < self@.len() && marks@[c as int] by {
                        lemma_edge_below(self@, a, c);
                        assert(!stack@.contains(a));
                    }
                    lemma_closed_covers(self@, marks@, root, m);
                }
            }
        }
        marks
    }

    /// The topological order of the graph rooted at `root`: every node
    /// reachable from `root` along operand links appears exactly once, in
    /// increasing index order, so each node comes after all of its
    /// operands.
    pub fn topo_order(&self, root: usize) -> (order: Vec<usize>)
        requires
            self.wf(),
            root < self@.len(),
        ensures
            order@ == topo_spec(self@, root),
    {
        let marks = self.reach_marks(root);
        let n = self.len();
        let mut order: Vec<usize> = Vec::new();
        let mut i: usize = 0;
        while i < n
            invariant
                i <= n,
                n == self@.len(),
                root < self@.len(),
                marks@.len() == n,
                forall|m: usize|
                    (m as int) < self@.len()
                        ==> ((#[trigger] marks@[m as int]) <==> reaches(self@, root, m)),
                order@ == topo_upto(self@, root, i as int),
            decreases n - i,
        {
            if marks[i] {
                order.push(i);
            }
            i += 1;
        }
        order
    }
}

/// Topological validity: in the traversal order of any well-formed graph,
/// every operand of an entry appears strictly before that entry.
pub proof fn lemma_topo_dependencies_first(ops: Seq<Op>, root: usize)
    requires
        wf_ops(ops),
        (root as int) < ops.len(),
        ops.len() <= usize::MAX,
    ensures
        forall|p: int, c: usize|
            0 <= p < topo_spec(ops, root).len() && #[trigger] edge(ops, topo_spec(ops, root)[p], c)
                ==> exists|q: int| 0 <= q < p && topo_spec(ops, root)[q] == c,
{
    let t = topo_spec(ops, root);
    lemma_topo_upto_elems(ops, root, ops.len() as int);
    assert forall|p: int, c: usize|
        0 <= p < t.len() && #[trigger] edge(ops, t[p], c)
            implies exists|q: int| 0 <= q < p && t[q] == c by {
        lemma_edge_below(ops, t[p], c);
        lemma_reaches_step(ops, root, t[p], c);
        assert(t.contains(c));
        let q = choose|q: int| 0 <= q < t.len() && t[q] == c;
        assert(t[q] < t[p]);
        assert(q < p) by {
            if q > p {
                assert(t[p] < t[q]);
            }
        }
        assert(0 <= q < p && t[q] == c);
    }
}

/// Exactly-once traversal: the order holds precisely the nodes reachable
/// from the root, with no node listed twice, and ends at the root itself.
pub proof fn lemma_topo_exactly_once(ops: Seq<Op>, root: usize)
    requires
        (root as int) < ops.len(),
        ops.len() <= usize::MAX,
    ensures
        forall|m: usize|
            #[trigger] topo_spec(ops, root).contains(m)
                <==> ((m as int) < ops.len() && reaches(ops, root, m)),
        forall|k1: int, k2: int|
            0 <= k1 < k2 < topo_spec(ops, root).len()
                ==> topo_spec(ops, root)[k1] != topo_spec(ops, root)[k2],
        topo_spec(ops, root).len() > 0,
        topo_spec(ops, root).last() == root,
{
    let t = topo_spec(ops, root);
    lemma_topo_upto_elems(ops, root, ops.len() as int);
    assert forall|m: usize|
        #[trigger] t.contains(m) implies ((m as int) < ops.len() && reaches(ops, root, m)) by {
        let k = choose|k: int| 0 <= k < t.len() && t[k] == m;
    }
    assert(reaches(ops, root, root));
    assert(t.contains(root));
    let q = choose|q: int| 0 <= q < t.len() && t[q] == root;
    assert(t.len() > 0);
    assert(q == t.len() - 1) by {
        if q < t.len() - 1 {
            let last = t[t.len() - 1];
            assert(t[q] < t[t.len() - 1]);
            assert(reaches(ops, root, last));
            lemma_reaches_le(ops, root, last);
        }
    }
}

} // verus!
