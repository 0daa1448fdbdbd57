//! The class hierarchy as a tree of nodes, and its box-drawing rendering.
use vstd::prelude::*;
use vstd::string::*;

verus! {

/// One asset in the hierarchy, with the assets that derive from it.
#[derive(Debug)]
pub struct Node {
    pub id: String,
    pub children: Vec<Node>,
}

/// The connector drawn at one depth of a rendered line.
#[derive(PartialEq, Eq, Structural, Clone, Copy, Debug)]
pub enum Edge {
    Blank,
    Straight,
    Corner,
    T,
}

/// The four characters drawn for a connector.
pub open spec fn glyph(e: Edge) -> Seq<char> {
    match e {
        Edge::Blank => seq![' ', ' ', ' ', ' '],
        Edge::Straight => seq!['│', ' ', ' ', ' '],
        Edge::Corner => seq!['└', '─', '─', ' '],
        Edge::T => seq!['├', '─', '─', ' '],
    }
}

/// The connectors in order, drawn side by side.
pub open spec fn glyphs(es: Seq<Edge>) -> Seq<char>
    decreases es.len(),
{
    if es.len() == 0 {
        seq![]
    } else {
        glyphs(es.drop_last()) + glyph(es.last())
    }
}

/// The connector at depth `i` of a node whose ancestors' "is last child" flags
/// (its own last) are `lasts`: the node's own depth gets a corner or a branch,
/// each ancestor's depth a continuation line, or blank below a last child.
pub open spec fn edge_at(lasts: Seq<bool>, i: int) -> Edge {
    if i == lasts.len() - 1 {
        if lasts[i] { Edge::Corner } else { Edge::T }
    } else {
        if lasts[i] { Edge::Blank } else { Edge::Straight }
    }
}

pub open spec fn edges_of(lasts: Seq<bool>) -> Seq<Edge> {
    Seq::new(lasts.len(), |i: int| edge_at(lasts, i))
}

/// The connectors in force while the children of a node at `lasts` are drawn.
pub open spec fn ancestor_edges(lasts: Seq<bool>) -> Seq<Edge> {
    Seq::new(lasts.len(), |i: int| if lasts[i] { Edge::Blank } else { Edge::Straight })
}

/// One rendered line: the prefix, the connectors, the node's id.
pub open spec fn node_line(prefix: Seq<char>, lasts: Seq<bool>, id: Seq<char>) -> Seq<char> {
    prefix + glyphs(edges_of(lasts)) + id + seq!['\n']
}

/// The text of `n` and all its descendants, depth first, children in order.
pub open spec fn rendered(n: Node, prefix: Seq<char>, lasts: Seq<bool>) -> Seq<char>
    decreases n, n.children@.len() + 1,
{
    node_line(prefix, lasts, n.id@) + rendered_children(n, prefix, lasts, n.children@.len() as int)
}

/// The text of the first `j` children of `n`.
pub open spec fn rendered_children(n: Node, prefix: Seq<char>, lasts: Seq<bool>, j: int) -> Seq<char>
    decreases n, j,
{
    if j <= 0 || j > n.children@.len() {
        seq![]
    } else {
        rendered_children(n, prefix, lasts, j - 1) + rendered(
            n.children@[j - 1],
            prefix,
            lasts.push(j - 1 == n.children@.len() - 1),
        )
    }
}

impl Edge {
    /// The four characters drawn for this connector.
    pub fn text(&self) -> (r: &'static str)
        ensures
            r@ == glyph(*self),
    {
        match self {
            Edge::Blank => {
                proof { reveal_strlit("    "); }
                "    "
            },
            Edge::Straight => {
                proof { reveal_strlit("│   "); }
                "│   "
            },
            Edge::Corner => {
                proof { reveal_strlit("└── "); }
                "└── "
            },
            Edge::T => {
                proof { reveal_strlit("├── "); }
                "├── "
            },
        }
    }
}

proof fn lemma_edges_push(lasts: Seq<bool>, last: bool)
    ensures
        edges_of(lasts.push(last)) == ancestor_edges(lasts).push(
            if last { Edge::Corner } else { Edge::T },
        ),
{
    assert(edges_of(lasts.push(last)) =~= ancestor_edges(lasts).push(
        if last { Edge::Corner } else { Edge::T },
    ));
}

impl Node {
    /// Renders this node and its descendants as an indented tree, one line
    /// per node, each line starting with `prefix`.
    pub fn print(&self, prefix: &str) -> (r: String)
        ensures
            r@ == rendered(*self, prefix@, seq![]),
    {
        let mut out = String::new();
        let mut stack: Vec<Edge> = Vec::new();
        assert(stack@ =~= edges_of(seq![]));
        self.print_node(prefix, &mut stack, &mut out, Ghost(Seq::<bool>::empty()));
        out
    }

    fn print_node(&self, prefix: &str, stack: &mut Vec<Edge>, out: &mut String, Ghost(lasts): Ghost<Seq<bool>>)
        requires
            old(stack)@ == edges_of(lasts),
        ensures
            final(out)@ == old(out)@ + rendered(*self, prefix@, lasts),
            final(stack)@ == old(stack)@,
        decreases self,
    {
        let ghost out0 = out@;
        let ghost stack0 = stack@;
        out.append(prefix);
        let mut k: usize = 0;
        while k < stack.len()
            invariant
                k <= stack@.len(),
                stack@ == stack0,
                out@ == out0 + prefix@ + glyphs(stack@.subrange(0, k as int)),
            decreases stack@.len() - k,
        {
            let e = stack[k];
            out.append(e.text());
            assert(stack@.subrange(0, k + 1).drop_last() == stack@.subrange(0, k as int));
            k = k + 1;
        }
        assert(stack@.subrange(0, k as int) == stack@);
        out.append(self.id.as_str());
        proof { reveal_strlit("\n"); }
        out.append("\n");
        assert(out@ == out0 + node_line(prefix@, lasts, self.id@));
        let n = self.children.len();
        if n > 0 {
            let sl = stack.len();
            let saved = if sl > 0 { Some(stack[sl - 1]) } else { None };
            if sl > 0 {
                if stack[sl - 1] == Edge::Corner {
                    stack.set(sl - 1, Edge::Blank);
                } else if stack[sl - 1] == Edge::T {
                    stack.set(sl - 1, Edge::Straight);
                }
            }
            assert(stack@ =~= ancestor_edges(lasts));
            let mut j: usize = 0;
            while j < n
                invariant
                    n == self.children@.len(),
                    j <= n,
                    stack@ == ancestor_edges(lasts),
                    out@ == out0 + node_line(prefix@, lasts, self.id@) + rendered_children(*self, prefix@, lasts, j as int),
                decreases n - j,
            {
                let last = j + 1 == n;
                if last {
                    stack.push(Edge::Corner);
                } else {
                    stack.push(Edge::T);
                }
                proof { lemma_edges_push(lasts, last); }
                let ghost before = out@;
                let child = &self.children[j];
                assert(decreases_to!(*self => self.children@[j as int]));
                child.print_node(prefix, stack, out, Ghost(lasts.push(last)));
                stack.pop();
                assert(stack@ =~= ancestor_edges(lasts));
                j = j + 1;
                assert(out@ == before + rendered(self.children@[j - 1], prefix@, lasts.push(j - 1 == n - 1)));
            }
            if let Some(e) = saved {
                stack.set(sl - 1, e);
            }
            assert(stack@ =~= stack0);
        }
    }
}

} // verus!
