//! Expression trees in flat prefix form: a sequence of nodes whose children
//! point at earlier positions, the last position being the root. The same
//! node shape doubles as an equivalence-graph member, where children point at
//! class ids instead.

use vstd::prelude::*;
use vstd::string::*;

use crate::strs::str_eq;

verus! {

/// One operator application: a symbol plus ordered child references.
pub struct ENode {
    pub op: String,
    pub children: Vec<usize>,
}

/// Structural equality of two nodes.
pub open spec fn node_like(a: &ENode, b: &ENode) -> bool {
    a.op@ == b.op@ && a.children@ == b.children@
}

pub fn node_eq(a: &ENode, b: &ENode) -> (r: bool)
    ensures
        r == node_like(a, b),
{
    if !str_eq(a.op.as_str(), b.op.as_str()) {
        return false;
    }
    if a.children.len() != b.children.len() {
        proof {
            assert(a.children@.len() != b.children@.len());
        }
        return false;
    }
    let mut i: usize = 0;
    while i < a.children.len()
        invariant
            i <= a.children@.len(),
            a.children@.len() == b.children@.len(),
            forall|k: int| 0 <= k < i ==> a.children@[k] == b.children@[k],
        decreases a.children@.len() - i,
    {
        if a.children[i] != b.children[i] {
            return false;
        }
        i = i + 1;
    }
    proof {
        assert(a.children@ =~= b.children@);
    }
    true
}

pub fn copy_usizes(v: &Vec<usize>) -> (r: Vec<usize>)
    ensures
        r@ == v@,
{
    let mut out: Vec<usize> = Vec::new();
    let mut i: usize = 0;
    while i < v.len()
        invariant
            i <= v@.len(),
            out@ == v@.take(i as int),
        decreases v@.len() - i,
    {
        out.push(v[i]);
        proof {
            assert(out@ =~= v@.take(i as int + 1));
        }
        i = i + 1;
    }
    proof {
        assert(v@.take(v@.len() as int) =~= v@);
    }
    out
}

pub fn copy_node(n: &ENode) -> (r: ENode)
    ensures
        node_like(&r, n),
{
    ENode { op: n.op.clone(), children: copy_usizes(&n.children) }
}

/// A whole expression in flat form: children of position `i` lie below `i`.
pub struct Expr {
    pub nodes: Vec<ENode>,
}

pub open spec fn expr_wf(nodes: Seq<ENode>) -> bool {
    forall|i: int, k: int|
        0 <= i < nodes.len() && 0 <= k < nodes[i].children@.len()
            ==> #[trigger] nodes[i].children@[k] < i
}

impl Expr {
    pub open spec fn wf(&self) -> bool {
        expr_wf(self.nodes@)
    }

    pub open spec fn len(&self) -> nat {
        self.nodes@.len()
    }

    pub fn new() -> (r: Expr)
        ensures
            r.wf(),
            r.len() == 0,
    {
        Expr { nodes: Vec::new() }
    }

    pub fn node_count(&self) -> (r: usize)
        ensures
            r == self.len(),
    {
        self.nodes.len()
    }

    /// Appends one node whose children all point below the new position;
    /// returns that position.
    pub fn push_node(&mut self, op: String, children: Vec<usize>) -> (r: usize)
        requires
            old(self).wf(),
            forall|k: int| 0 <= k < children@.len() ==> children@[k] < old(self).len(),
        ensures
            final(self).wf(),
            final(self).len() == old(self).len() + 1,
            r as int == old(self).len(),
            final(self).nodes@[r as int].op@ == op@,
            final(self).nodes@[r as int].children@ == children@,
            forall|i: int| 0 <= i < old(self).len() ==> final(self).nodes@[i] == old(self).nodes@[i],
    {
        let r = self.nodes.len();
        self.nodes.push(ENode { op, children });
        r
    }
}

/// The rendered text of the subtree rooted at position `i`: a leaf prints as
/// its operator, an application as the parenthesized operator followed by its
/// children, space-separated.
pub open spec fn render_node(nodes: Seq<ENode>, i: int) -> Seq<char>
    decreases i, 1int, 0int,
{
    if 0 <= i < nodes.len() {
        if nodes[i].children@.len() == 0 {
            nodes[i].op@
        } else {
            seq!['('] + nodes[i].op@ + render_kids(nodes, nodes[i].children@, 0, i) + seq![')']
        }
    } else {
        Seq::<char>::empty()
    }
}

/// The rendered texts of children `k ..`, each preceded by one space. The
/// parent position `par` bounds the recursion; a child reference at or above
/// it renders as nothing (well-formed expressions never have one).
pub open spec fn render_kids(nodes: Seq<ENode>, ch: Seq<usize>, k: int, par: int) -> Seq<char>
    decreases par, 0int, ch.len() - k,
{
    if 0 <= k < ch.len() {
        if (ch[k] as int) < par {
            seq![' '] + render_node(nodes, ch[k] as int) + render_kids(nodes, ch, k + 1, par)
        } else {
            render_kids(nodes, ch, k + 1, par)
        }
    } else {
        Seq::<char>::empty()
    }
}

/// Renders the subtree of `expr` rooted at position `i`.
pub fn render(expr: &Expr, i: usize) -> (r: String)
    requires
        expr.wf(),
        i < expr.len(),
    ensures
        r@ == render_node(expr.nodes@, i as int),
    decreases i,
{
    if expr.nodes[i].children.len() == 0 {
        let s = String::from_str(expr.nodes[i].op.as_str());
        return s;
    }
    let mut s = String::from_str("(");
    proof {
        reveal_strlit("(");
        assert(s@ =~= seq!['(']);
    }
    s.append(expr.nodes[i].op.as_str());
    let n = expr.nodes[i].children.len();
    let ghost ch = expr.nodes@[i as int].children@;
    let mut k: usize = 0;
    while k < n
        invariant
            expr.wf(),
            i < expr.len(),
            n == ch.len(),
            ch == expr.nodes@[i as int].children@,
            k <= n,
            forall|j: int| 0 <= j < ch.len() ==> ch[j] < i,
            s@ + render_kids(expr.nodes@, ch, k as int, i as int) =~= seq!['(']
                + expr.nodes@[i as int].op@ + render_kids(expr.nodes@, ch, 0, i as int),
        decreases n - k,
    {
        let c: usize = expr.nodes[i].children[k];
        let child = render(expr, c);
        s.append(" ");
        proof {
            reveal_strlit(" ");
        }
        s.append(child.as_str());
        k = k + 1;
    }
    s.append(")");
    proof {
        reveal_strlit(")");
        assert(render_kids(expr.nodes@, ch, n as int, i as int) =~= Seq::<char>::empty());
        assert(s@ =~= render_node(expr.nodes@, i as int));
    }
    s
}

} // verus!
