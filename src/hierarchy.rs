//! The hierarchy graph: parent path to the ordered set of its children, the
//! roots of that forest, and the trees built from them.
use vstd::prelude::*;
use crate::order::{lemma_lt_transitive, lemma_sorted_distinct, lemma_sorted_unique, lemma_lt_trichotomy, strictly_sorted};
use crate::text::{seq_lt, str_eq, str_lt};
use crate::tree::{rendered, rendered_children, Node};

verus! {

/// A parent and its children, in ascending order without repeats.
pub struct ParentEntry {
    pub parent: String,
    pub children: Vec<String>,
}

/// Edges from parent paths to child paths, parents in ascending order.
pub struct Hierarchy {
    pub entries: Vec<ParentEntry>,
}

/// The characters of each string, in order.
pub open spec fn str_views(v: Seq<String>) -> Seq<Seq<char>> {
    v.map_values(|c: String| c@)
}

pub open spec fn children_view(e: ParentEntry) -> Seq<Seq<char>> {
    str_views(e.children@)
}

impl Hierarchy {
    pub open spec fn parents(self) -> Seq<Seq<char>> {
        self.entries@.map_values(|e: ParentEntry| e.parent@)
    }

    pub open spec fn wf(self) -> bool {
        &&& strictly_sorted(self.parents())
        &&& forall|k: int| 0 <= k < self.entries@.len()
            ==> strictly_sorted(#[trigger] children_view(self.entries@[k]))
        &&& forall|k: int| 0 <= k < self.entries@.len() ==> (#[trigger] self.entries@[k]).children@.len() > 0
    }

    /// The edges as (parent, child) pairs.
    pub open spec fn edges(self) -> Set<(Seq<char>, Seq<char>)> {
        Set::new(|pc: (Seq<char>, Seq<char>)| self.has_edge(pc.0, pc.1))
    }

    pub open spec fn has_edge(self, p: Seq<char>, c: Seq<char>) -> bool {
        exists|k: int, j: int|
            0 <= k < self.entries@.len() && 0 <= j < self.entries@[k].children@.len()
                && #[trigger] self.entries@[k].parent@ == p
                && #[trigger] self.entries@[k].children@[j]@ == c
    }

    /// Some edge ends at `c`.
    pub open spec fn is_child(self, c: Seq<char>) -> bool {
        exists|k: int, j: int|
            0 <= k < self.entries@.len() && 0 <= j < self.entries@[k].children@.len()
                && #[trigger] self.entries@[k].children@[j]@ == c
    }

    /// The parents, in order, that no edge ends at.
    pub open spec fn roots_upto(self, i: int) -> Seq<Seq<char>>
        decreases i,
    {
        if i <= 0 || i > self.entries@.len() {
            seq![]
        } else if self.is_child(self.entries@[i - 1].parent@) {
            self.roots_upto(i - 1)
        } else {
            self.roots_upto(i - 1).push(self.entries@[i - 1].parent@)
        }
    }

    pub open spec fn roots(self) -> Seq<Seq<char>> {
        self.roots_upto(self.entries@.len() as int)
    }

    /// A hierarchy with no edges.
    pub fn new() -> (r: Hierarchy)
        ensures
            r.wf(),
            r.edges() == Set::<(Seq<char>, Seq<char>)>::empty(),
    {
        let r = Hierarchy { entries: Vec::new() };
        assert(r.edges() =~= Set::<(Seq<char>, Seq<char>)>::empty());
        r
    }

    /// Adds the edge `parent` to `child`; an edge already there is kept once.
    pub fn insert_edge(&mut self, parent: &str, child: &str)
        requires
            old(self).wf(),
        ensures
            final(self).wf(),
            final(self).edges() == old(self).edges().insert((parent@, child@)),
    {
        let ghost old_self = *self;
        let n = self.entries.len();
        let mut k: usize = 0;
        while k < n && str_lt(self.entries[k].parent.as_str(), parent)
            invariant
                n == self.entries@.len(),
                *self == old_self,
                k <= n,
                forall|i: int| 0 <= i < k ==> seq_lt(#[trigger] self.parents()[i], parent@),
            decreases n - k,
        {
            k = k + 1;
        }
        if k < n && str_eq(self.entries[k].parent.as_str(), parent) {
            let mut entry = self.entries.remove(k);
            let ghost e0 = entry;
            assert(e0 == old_self.entries@[k as int]);
            assert(strictly_sorted(children_view(old_self.entries@[k as int])));
            insert_sorted(&mut entry.children, child);
            let ghost e1 = entry;
            self.entries.insert(k, entry);
            assert(self.entries@[k as int] == e1);
            assert(self.parents() =~= old_self.parents());
            assert(str_views(e1.children@).to_set().contains(child@));
            assert(str_views(e1.children@).contains(child@));
            assert forall|q: int| 0 <= q < self.entries@.len() implies strictly_sorted(
                #[trigger] children_view(self.entries@[q]),
            ) && self.entries@[q].children@.len() > 0 by {
                if q != k {
                    assert(self.entries@[q] == old_self.entries@[q]);
                }
            }
            assert forall|pc: (Seq<char>, Seq<char>)|
                #[trigger] self.edges().contains(pc) == old_self.edges().insert((parent@, child@)).contains(pc)
            by {
                let p = pc.0;
                let c = pc.1;
                if old_self.has_edge(p, c) {
                    let (a, b) = choose|a: int, b: int|
                        0 <= a < old_self.entries@.len() && 0 <= b < old_self.entries@[a].children@.len()
                            && #[trigger] old_self.entries@[a].parent@ == p
                            && #[trigger] old_self.entries@[a].children@[b]@ == c;
                    if a == k {
                        let c0 = e0.children@[b];
                        assert(children_view(e0)[b] == c0@);
                        assert(children_view(e0).contains(c0@));
                        assert(children_view(e0).to_set().contains(c0@));
                        assert(str_views(entry.children@).to_set().contains(c0@));
                        assert(str_views(entry.children@).contains(c0@));
                        let b3 = choose|b3: int| 0 <= b3 < str_views(entry.children@).len() && str_views(entry.children@)[b3] == c0@;
                        assert(entry.children@[b3]@ == c0@);
                        assert(self.entries@[a].children@[b3]@ == c);
                        assert(self.entries@[a].parent@ == p);
                    } else {
                        assert(self.entries@[a] == old_self.entries@[a]);
                    }
                    assert(self.has_edge(p, c));
                }
                if p == parent@ && c == child@ {
                    assert(str_views(entry.children@).to_set().contains(child@));
                    assert(str_views(entry.children@).contains(child@));
                    let b3 = choose|b3: int| 0 <= b3 < str_views(entry.children@).len() && str_views(entry.children@)[b3] == child@;
                    assert(entry.children@[b3]@ == child@);
                    assert(self.entries@[k as int].children@[b3]@ == c);
                    assert(self.entries@[k as int].parent@ == p);
                    assert(self.has_edge(p, c));
                }
                if self.has_edge(p, c) {
                    let (a, b) = choose|a: int, b: int|
                        0 <= a < self.entries@.len() && 0 <= b < self.entries@[a].children@.len()
                            && #[trigger] self.entries@[a].parent@ == p
                            && #[trigger] self.entries@[a].children@[b]@ == c;
                    if a == k {
                        let c1 = entry.children@[b];
                        if c1@ != child@ {
                            assert(str_views(entry.children@)[b] == c1@);
                            assert(str_views(entry.children@).to_set().contains(c1@));
                            assert(children_view(e0).to_set().contains(c1@));
                            assert(children_view(e0).contains(c1@));
                            let b4 = choose|b4: int| 0 <= b4 < children_view(e0).len() && children_view(e0)[b4] == c1@;
                            assert(e0.children@[b4]@ == c1@);
                            let b0 = choose|b0: int| 0 <= b0 < e0.children@.len() && #[trigger] e0.children@[b0]@ == c1@;
                            assert(old_self.entries@[a].children@[b0]@ == c);
                            assert(old_self.has_edge(p, c));
                        }
                    } else {
                        assert(self.entries@[a] == old_self.entries@[a]);
                        assert(old_self.has_edge(p, c));
                    }
                }
            }
            assert(self.edges() =~= old_self.edges().insert((parent@, child@)));
        } else {
            let mut children: Vec<String> = Vec::new();
            children.push(owned_copy(child));
            let entry = ParentEntry { parent: owned_copy(parent), children };
            let ghost ge = entry;
            assert(ge.children@[0]@ == child@);
            assert(ge.parent@ == parent@);
            proof {
                if k < n {
                    lemma_lt_trichotomy(parent@, self.parents()[k as int]);
                }
            }
            assert forall|m: int| k <= m < n implies seq_lt(parent@, #[trigger] old_self.parents()[m]) by {
                if m > k {
                    lemma_lt_transitive(parent@, old_self.parents()[k as int], old_self.parents()[m]);
                }
            }
            self.entries.insert(k, entry);
            assert(self.parents() =~= old_self.parents().insert(k as int, parent@));
            assert forall|i: int, j: int| 0 <= i < j < self.parents().len() implies seq_lt(
                #[trigger] self.parents()[i],
                #[trigger] self.parents()[j],
            ) by {
                let ps = old_self.parents();
                if i < k && j > k {
                    lemma_lt_transitive(ps[i], parent@, ps[j - 1]);
                }
            }
            assert forall|q: int| 0 <= q < self.entries@.len() implies strictly_sorted(
                #[trigger] children_view(self.entries@[q]),
            ) && self.entries@[q].children@.len() > 0 by {
                if q < k {
                    assert(self.entries@[q] == old_self.entries@[q]);
                } else if q > k {
                    assert(self.entries@[q] == old_self.entries@[q - 1]);
                }
            }
            assert forall|pc: (Seq<char>, Seq<char>)|
                #[trigger] self.edges().contains(pc) == old_self.edges().insert((parent@, child@)).contains(pc)
            by {
                let p = pc.0;
                let c = pc.1;
                if old_self.has_edge(p, c) {
                    let (a, b) = choose|a: int, b: int|
                        0 <= a < old_self.entries@.len() && 0 <= b < old_self.entries@[a].children@.len()
                            && #[trigger] old_self.entries@[a].parent@ == p
                            && #[trigger] old_self.entries@[a].children@[b]@ == c;
                    let a2 = if a < k { a } else { a + 1 };
                    assert(self.entries@[a2] == old_self.entries@[a]);
                    assert(self.has_edge(p, c));
                }
                if p == parent@ && c == child@ {
                    assert(self.entries@[k as int] == ge);
                    assert(self.entries@[k as int].children@[0]@ == c);
                    assert(self.entries@[k as int].parent@ == p);
                    assert(self.has_edge(p, c));
                }
                if self.has_edge(p, c) {
                    let (a, b) = choose|a: int, b: int|
                        0 <= a < self.entries@.len() && 0 <= b < self.entries@[a].children@.len()
                            && #[trigger] self.entries@[a].parent@ == p
                            && #[trigger] self.entries@[a].children@[b]@ == c;
                    if a < k {
                        assert(self.entries@[a] == old_self.entries@[a]);
                        assert(old_self.has_edge(p, c));
                    } else if a > k {
                        assert(self.entries@[a] == old_self.entries@[a - 1]);
                        assert(old_self.has_edge(p, c));
                    }
                }
            }
            assert(self.edges() =~= old_self.edges().insert((parent@, child@)));
        }
    }
}

/// An owned copy of a string slice.
fn owned_copy(s: &str) -> (r: String)
    ensures
        r@ == s@,
{
    s.to_owned()
}

/// Inserts `x` into an ascending list without repeats, unless it is there.
pub fn insert_sorted(v: &mut Vec<String>, x: &str)
    requires
        strictly_sorted(str_views(old(v)@)),
    ensures
        strictly_sorted(str_views(final(v)@)),
        str_views(final(v)@).to_set() == str_views(old(v)@).to_set().insert(x@),
{
    let ghost old_v = str_views(v@);
    let n = v.len();
    let mut k: usize = 0;
    while k < n && str_lt(v[k].as_str(), x)
        invariant
            n == v@.len(),
            str_views(v@) == old_v,
            k <= n,
            forall|i: int| 0 <= i < k ==> seq_lt(#[trigger] old_v[i], x@),
        decreases n - k,
    {
        k = k + 1;
    }
    if k < n && str_eq(v[k].as_str(), x) {
        assert(old_v[k as int] == x@);
        assert(old_v.to_set().insert(x@) =~= old_v.to_set());
        return;
    }
    proof {
        if k < n {
            lemma_lt_trichotomy(x@, old_v[k as int]);
        }
    }
    assert forall|m: int| k <= m < n implies seq_lt(x@, #[trigger] old_v[m]) by {
        if m > k {
            lemma_lt_transitive(x@, old_v[k as int], old_v[m]);
        }
    }
    v.insert(k, owned_copy(x));
    let ghost nv = str_views(v@);
    assert(nv =~= old_v.insert(k as int, x@));
    assert forall|i: int, j: int| 0 <= i < j < nv.len() implies seq_lt(#[trigger] nv[i], #[trigger] nv[j]) by {
        if i < k && j > k {
            lemma_lt_transitive(old_v[i], x@, old_v[j - 1]);
        }
    }
    assert forall|y: Seq<char>| #[trigger] nv.to_set().contains(y) == old_v.to_set().insert(x@).contains(y) by {
        if old_v.contains(y) {
            let i = choose|i: int| 0 <= i < old_v.len() && old_v[i] == y;
            if i < k {
                assert(nv[i] == y);
            } else {
                assert(nv[i + 1] == y);
            }
        }
        if y == x@ {
            assert(nv[k as int] == y);
        }
        if nv.contains(y) {
            let i = choose|i: int| 0 <= i < nv.len() && nv[i] == y;
            if i < k {
                assert(old_v[i] == y);
            } else if i > k {
                assert(old_v[i - 1] == y);
            }
        }
    }
    assert(nv.to_set() =~= old_v.to_set().insert(x@));
}

/// The ancestors of a node under construction: distinct indices of parents.
pub open spec fn ancestors_ok(h: Hierarchy, anc: Seq<usize>) -> bool {
    &&& anc.no_duplicates()
    &&& forall|i: int| 0 <= i < anc.len() ==> #[trigger] anc[i] < h.entries@.len()
}

/// `id` is a parent already among the ancestors: its parent chain runs in
/// a circle.
pub open spec fn cycle_at(h: Hierarchy, id: Seq<char>, anc: Seq<usize>) -> bool {
    exists|k: int| 0 <= k < h.entries@.len() && h.entries@[k].parent@ == id && anc.contains(k as usize)
}

/// Growing `n` from `id` met a parent chain that runs in a circle, and cut it.
pub open spec fn meets_cycle(h: Hierarchy, n: Node, id: Seq<char>, anc: Seq<usize>) -> bool
    decreases h.entries@.len() - anc.len(),
{
    if anc.len() < h.entries@.len() && exists|k: int| open_parent(h, id, anc, k) {
        let k = choose|k: int| open_parent(h, id, anc, k);
        exists|i: int|
            0 <= i < n.children@.len() && meets_cycle(
                h,
                #[trigger] n.children@[i],
                h.entries@[k].children@[i]@,
                anc.push(k as usize),
            )
    } else {
        cycle_at(h, id, anc)
    }
}

/// The index of the parent entry of `id` that is not among the ancestors.
pub open spec fn open_parent(h: Hierarchy, id: Seq<char>, anc: Seq<usize>, k: int) -> bool {
    0 <= k < h.entries@.len() && h.entries@[k].parent@ == id && !anc.contains(k as usize)
}

/// `n` is the tree grown from `id`: its children are the trees of the
/// children of `id`, in order. A node met again below itself (a cycle in
/// the parent references) is drawn once more, as a leaf.
pub open spec fn is_tree_of(h: Hierarchy, n: Node, id: Seq<char>, anc: Seq<usize>) -> bool
    decreases h.entries@.len() - anc.len(),
{
    &&& n.id@ == id
    &&& if anc.len() < h.entries@.len() && exists|k: int| open_parent(h, id, anc, k) {
        let k = choose|k: int| open_parent(h, id, anc, k);
        &&& n.children@.len() == h.entries@[k].children@.len()
        &&& forall|i: int|
            0 <= i < n.children@.len() ==> is_tree_of(
                h,
                #[trigger] n.children@[i],
                h.entries@[k].children@[i]@,
                anc.push(k as usize),
            )
    } else {
        n.children@.len() == 0
    }
}

proof fn lemma_ancestors_bound(h: Hierarchy, anc: Seq<usize>, k: usize)
    requires
        ancestors_ok(h, anc),
        k < h.entries@.len(),
        !anc.contains(k),
    ensures
        anc.len() < h.entries@.len(),
        ancestors_ok(h, anc.push(k)),
{
    let s = anc.push(k);
    assert forall|i: int, j: int| 0 <= i < s.len() && 0 <= j < s.len() && i != j implies s[i] != s[j] by {
        if i < anc.len() && j < anc.len() {
        } else if i < anc.len() {
            assert(anc.contains(s[i]));
        } else {
            assert(anc.contains(s[j]));
        }
    }
    let si = s.map_values(|x: usize| x as int);
    assert(si.no_duplicates());
    si.unique_seq_to_set();
    let n = h.entries@.len() as int;
    vstd::set_lib::lemma_int_range(0, n);
    assert(si.to_set().subset_of(vstd::set_lib::set_int_range(0, n)));
    vstd::set_lib::lemma_len_subset(si.to_set(), vstd::set_lib::set_int_range(0, n));
}

impl Hierarchy {
    /// The index of the entry whose parent is `id`, if any.
    fn parent_index(&self, id: &str) -> (r: Option<usize>)
        requires
            self.wf(),
        ensures
            match r {
                Some(k) => k < self.entries@.len() && self.entries@[k as int].parent@ == id@,
                None => forall|k: int| 0 <= k < self.entries@.len() ==> self.entries@[k].parent@ != id@,
            },
    {
        let n = self.entries.len();
        let mut k: usize = 0;
        while k < n
            invariant
                n == self.entries@.len(),
                k <= n,
                forall|i: int| 0 <= i < k ==> self.entries@[i].parent@ != id@,
            decreases n - k,
        {
            if str_eq(self.entries[k].parent.as_str(), id) {
                return Some(k);
            }
            k = k + 1;
        }
        None
    }

    /// True when some edge ends at `c`.
    pub fn has_parent(&self, c: &str) -> (r: bool)
        ensures
            r == self.is_child(c@),
    {
        let n = self.entries.len();
        let mut k: usize = 0;
        while k < n
            invariant
                n == self.entries@.len(),
                k <= n,
                forall|a: int, b: int|
                    0 <= a < k && 0 <= b < self.entries@[a].children@.len()
                        ==> #[trigger] self.entries@[a].children@[b]@ != c@,
            decreases n - k,
        {
            let m = self.entries[k].children.len();
            let mut j: usize = 0;
            while j < m
                invariant
                    n == self.entries@.len(),
                    k < n,
                    m == self.entries@[k as int].children@.len(),
                    j <= m,
                    forall|b: int| 0 <= b < j ==> #[trigger] self.entries@[k as int].children@[b]@ != c@,
                decreases m - j,
            {
                if str_eq(self.entries[k].children[j].as_str(), c) {
                    return true;
                }
                j = j + 1;
            }
            k = k + 1;
        }
        false
    }

    /// The roots of the forest: parents that are no one's child, in order.
    fn roots_exec(&self) -> (r: Vec<String>)
        ensures
            str_views(r@) == self.roots(),
    {
        let n = self.entries.len();
        let mut r: Vec<String> = Vec::new();
        let mut k: usize = 0;
        while k < n
            invariant
                n == self.entries@.len(),
                k <= n,
                str_views(r@) == self.roots_upto(k as int),
            decreases n - k,
        {
            let p = self.entries[k].parent.as_str();
            if !self.has_parent(p) {
                r.push(owned_copy(p));
            }
            assert(str_views(r@) =~= self.roots_upto(k + 1));
            k = k + 1;
        }
        r
    }

    /// The tree grown from `id`, with `anc` the parents above it.
    /// Also tells whether a parent chain running in a circle was cut.
    fn build_node(&self, id: &str, anc: &mut Vec<usize>) -> (r: (Node, bool))
        requires
            self.wf(),
            ancestors_ok(*self, old(anc)@),
        ensures
            is_tree_of(*self, r.0, id@, old(anc)@),
            r.1 == meets_cycle(*self, r.0, id@, old(anc)@),
            final(anc)@ == old(anc)@,
        decreases self.entries@.len() - anc@.len(),
    {
        let ghost a0 = anc@;
        let found = self.parent_index(id);
        let mut open: Option<usize> = None;
        if let Some(k) = found {
            let mut seen = false;
            let mut q: usize = 0;
            while q < anc.len()
                invariant
                    anc@ == a0,
                    q <= anc@.len(),
                    seen == exists|i: int| 0 <= i < q && anc@[i] == k,
                decreases anc@.len() - q,
            {
                if anc[q] == k {
                    seen = true;
                }
                q = q + 1;
            }
            if !seen {
                open = Some(k);
            }
        }
        let mut children: Vec<Node> = Vec::new();
        let mut cut = false;
        if let Some(k) = open {
            proof {
                lemma_ancestors_bound(*self, a0, k);
                assert(open_parent(*self, id@, a0, k as int));
                let kk = choose|kk: int| open_parent(*self, id@, a0, kk);
                if kk != k {
                    lemma_sorted_distinct(self.parents(), kk, k as int);
                }
            }
            let m = self.entries[k].children.len();
            let mut j: usize = 0;
            while j < m
                invariant
                    self.wf(),
                    anc@ == a0,
                    a0 == old(anc)@,
                    ancestors_ok(*self, a0.push(k)),
                    a0.len() < self.entries@.len(),
                    k < self.entries@.len(),
                    m == self.entries@[k as int].children@.len(),
                    j <= m,
                    children@.len() == j,
                    forall|i: int| 0 <= i < j ==> is_tree_of(
                        *self,
                        #[trigger] children@[i],
                        self.entries@[k as int].children@[i]@,
                        a0.push(k),
                    ),
                    cut == exists|i: int| 0 <= i < j && meets_cycle(
                        *self,
                        #[trigger] children@[i],
                        self.entries@[k as int].children@[i]@,
                        a0.push(k),
                    ),
                decreases m - j,
            {
                anc.push(k);
                assert(anc@.len() == a0.len() + 1);
                assert(self.entries@.len() - anc@.len() < self.entries@.len() - a0.len());
                let (child, child_cut) = self.build_node(self.entries[k].children[j].as_str(), anc);
                anc.pop();
                let ghost before = children@;
                children.push(child);
                cut = cut || child_cut;
                assert(children@[j as int] == child);
                assert forall|i: int| 0 <= i < j implies children@[i] == before[i] by {}
                j = j + 1;
            }
        } else {
            proof {
                if a0.len() < self.entries@.len() && exists|kk: int| open_parent(*self, id@, a0, kk) {
                    let kk = choose|kk: int| open_parent(*self, id@, a0, kk);
                    let k = found.unwrap();
                    if kk != k {
                        lemma_sorted_distinct(self.parents(), kk, k as int);
                    }
                }
            }
            cut = found.is_some();
            proof {
                if let Some(k) = found {
                    let q = choose|q: int| 0 <= q < a0.len() && a0[q] == k;
                    assert(a0.contains(k));
                    assert(cycle_at(*self, id@, a0));
                }
            }
        }
        (Node { id: owned_copy(id), children }, cut)
    }
}

/// The roots of the forest: parents that are no one's child, in order.
pub fn find_roots(edge_list: &Hierarchy) -> (r: Vec<String>)
    ensures
        str_views(r@) == edge_list.roots(),
{
    edge_list.roots_exec()
}

/// The tree grown from `id`: the node, and below it the trees of its
/// children, in order.
pub fn build_node_recursively(id: &str, children_map: &Hierarchy) -> (r: Node)
    requires
        children_map.wf(),
    ensures
        is_tree_of(*children_map, r, id@, seq![]),
{
    let mut anc: Vec<usize> = Vec::new();
    assert(ancestors_ok(*children_map, anc@));
    children_map.build_node(id, &mut anc).0
}

/// The forest of the hierarchy: one tree per root, roots in order.
pub fn build_trees(edge_list: &Hierarchy) -> (r: Vec<Node>)
    requires
        edge_list.wf(),
    ensures
        r@.len() == edge_list.roots().len(),
        forall|i: int| 0 <= i < r@.len() ==> is_tree_of(*edge_list, #[trigger] r@[i], edge_list.roots()[i], seq![]),
{
    build_forest(edge_list).0
}

/// `id` is the id of `n` or of a node below it.
pub open spec fn tree_has(n: Node, id: Seq<char>) -> bool
    decreases n,
{
    n.id@ == id || exists|i: int| 0 <= i < n.children@.len() && tree_has(#[trigger] n.children@[i], id)
}

/// Some tree of the forest holds `id`.
pub open spec fn forest_has(trees: Seq<Node>, id: Seq<char>) -> bool {
    exists|i: int| 0 <= i < trees.len() && tree_has(#[trigger] trees[i], id)
}

/// Some parent lies in no tree of the forest: in an acyclic hierarchy every
/// parent lies below a root, so its parent chain runs in a circle.
pub open spec fn unreached_parent(h: Hierarchy, trees: Seq<Node>) -> bool {
    exists|k: int| 0 <= k < h.entries@.len() && !forest_has(trees, #[trigger] h.entries@[k].parent@)
}

/// True when `n` or a node below it has the id `id`.
pub fn tree_contains(n: &Node, id: &str) -> (r: bool)
    ensures
        r == tree_has(*n, id@),
    decreases n,
{
    if str_eq(n.id.as_str(), id) {
        return true;
    }
    let mut i: usize = 0;
    while i < n.children.len()
        invariant
            i <= n.children@.len(),
            n.id@ != id@,
            forall|j: int| 0 <= j < i ==> !tree_has(#[trigger] n.children@[j], id@),
        decreases n.children@.len() - i,
    {
        assert(decreases_to!(*n => n.children@[i as int]));
        if tree_contains(&n.children[i], id) {
            return true;
        }
        i = i + 1;
    }
    false
}

/// True when some tree of the forest holds `id`.
fn forest_contains(trees: &Vec<Node>, id: &str) -> (r: bool)
    ensures
        r == forest_has(trees@, id@),
{
    let mut i: usize = 0;
    while i < trees.len()
        invariant
            i <= trees@.len(),
            forall|j: int| 0 <= j < i ==> !tree_has(#[trigger] trees@[j], id@),
        decreases trees@.len() - i,
    {
        if tree_contains(&trees[i], id) {
            return true;
        }
        i = i + 1;
    }
    false
}

/// The forest of the hierarchy, and whether a parent chain running in a
/// circle was met: cut below some root, or left out of every tree.
pub fn build_forest(edge_list: &Hierarchy) -> (r: (Vec<Node>, bool))
    requires
        edge_list.wf(),
    ensures
        r.0@.len() == edge_list.roots().len(),
        forall|i: int| 0 <= i < r.0@.len() ==> is_tree_of(*edge_list, #[trigger] r.0@[i], edge_list.roots()[i], seq![]),
        r.1 == ((exists|i: int| 0 <= i < r.0@.len() && meets_cycle(*edge_list, #[trigger] r.0@[i], edge_list.roots()[i], seq![]))
            || unreached_parent(*edge_list, r.0@)),
{
    let roots = find_roots(edge_list);
    let mut nodes: Vec<Node> = Vec::new();
    let mut cycle = false;
    let mut i: usize = 0;
    while i < roots.len()
        invariant
            edge_list.wf(),
            str_views(roots@) == edge_list.roots(),
            i <= roots@.len(),
            nodes@.len() == i,
            forall|q: int| 0 <= q < i ==> is_tree_of(*edge_list, #[trigger] nodes@[q], edge_list.roots()[q], seq![]),
            cycle == exists|q: int| 0 <= q < i && meets_cycle(*edge_list, #[trigger] nodes@[q], edge_list.roots()[q], seq![]),
        decreases roots@.len() - i,
    {
        let mut anc: Vec<usize> = Vec::new();
        assert(ancestors_ok(*edge_list, anc@));
        let (node, cut) = edge_list.build_node(roots[i].as_str(), &mut anc);
        assert(str_views(roots@)[i as int] == roots@[i as int]@);
        assert(anc@ == Seq::<usize>::empty());
        let ghost before = nodes@;
        nodes.push(node);
        cycle = cycle || cut;
        assert(nodes@[i as int] == node);
        assert forall|q: int| 0 <= q < i implies nodes@[q] == before[q] by {}
        i = i + 1;
    }
    let mut unreached = false;
    let mut k: usize = 0;
    while k < edge_list.entries.len()
        invariant
            k <= edge_list.entries@.len(),
            unreached == exists|q: int| 0 <= q < k && !forest_has(nodes@, #[trigger] edge_list.entries@[q].parent@),
        decreases edge_list.entries@.len() - k,
    {
        if !forest_contains(&nodes, edge_list.entries[k].parent.as_str()) {
            unreached = true;
        }
        k = k + 1;
    }
    (nodes, cycle || unreached)
}

/// Two hierarchies with the same parents, in order, and for each parent the
/// same children, in order.
pub open spec fn same_shape(h1: Hierarchy, h2: Hierarchy) -> bool {
    &&& h1.parents() == h2.parents()
    &&& h1.entries@.len() == h2.entries@.len()
    &&& forall|k: int| 0 <= k < h1.entries@.len()
        ==> #[trigger] children_view(h1.entries@[k]) == children_view(h2.entries@[k])
}

/// A well-formed hierarchy is determined by its edges.
pub proof fn lemma_same_edges_same_shape(h1: Hierarchy, h2: Hierarchy)
    requires
        h1.wf(),
        h2.wf(),
        h1.edges() == h2.edges(),
    ensures
        same_shape(h1, h2),
{
    assert forall|p: Seq<char>| h1.parents().contains(p) <==> h2.parents().contains(p) by {
        if h1.parents().contains(p) {
            let k = choose|k: int| 0 <= k < h1.parents().len() && h1.parents()[k] == p;
            let c = h1.entries@[k].children@[0]@;
            assert(h1.has_edge(p, c));
            assert(h1.edges().contains((p, c)));
            assert(h2.has_edge(p, c));
            let (a, b) = choose|a: int, b: int|
                0 <= a < h2.entries@.len() && 0 <= b < h2.entries@[a].children@.len()
                    && #[trigger] h2.entries@[a].parent@ == p && #[trigger] h2.entries@[a].children@[b]@ == c;
            assert(h2.parents()[a] == p);
        }
        if h2.parents().contains(p) {
            let k = choose|k: int| 0 <= k < h2.parents().len() && h2.parents()[k] == p;
            let c = h2.entries@[k].children@[0]@;
            assert(h2.has_edge(p, c));
            assert(h2.edges().contains((p, c)));
            assert(h1.has_edge(p, c));
            let (a, b) = choose|a: int, b: int|
                0 <= a < h1.entries@.len() && 0 <= b < h1.entries@[a].children@.len()
                    && #[trigger] h1.entries@[a].parent@ == p && #[trigger] h1.entries@[a].children@[b]@ == c;
            assert(h1.parents()[a] == p);
        }
    }
    lemma_sorted_unique(h1.parents(), h2.parents());
    assert(h1.entries@.len() == h1.parents().len());
    assert forall|k: int| 0 <= k < h1.entries@.len() implies #[trigger] children_view(h1.entries@[k])
        == children_view(h2.entries@[k]) by {
        let p = h1.parents()[k];
        assert(h2.parents()[k] == p);
        let cv1 = children_view(h1.entries@[k]);
        let cv2 = children_view(h2.entries@[k]);
        assert forall|c: Seq<char>| cv1.contains(c) <==> cv2.contains(c) by {
            if cv1.contains(c) {
                let j = choose|j: int| 0 <= j < cv1.len() && cv1[j] == c;
                assert(h1.entries@[k].children@[j]@ == c);
                assert(h1.has_edge(p, c));
                assert(h1.edges().contains((p, c)));
                assert(h2.has_edge(p, c));
                let (a, b) = choose|a: int, b: int|
                    0 <= a < h2.entries@.len() && 0 <= b < h2.entries@[a].children@.len()
                        && #[trigger] h2.entries@[a].parent@ == p && #[trigger] h2.entries@[a].children@[b]@ == c;
                if a != k {
                    lemma_sorted_distinct(h2.parents(), a, k);
                }
                assert(cv2[b] == c);
            }
            if cv2.contains(c) {
                let j = choose|j: int| 0 <= j < cv2.len() && cv2[j] == c;
                assert(h2.entries@[k].children@[j]@ == c);
                assert(h2.has_edge(p, c));
                assert(h2.edges().contains((p, c)));
                assert(h1.has_edge(p, c));
                let (a, b) = choose|a: int, b: int|
                    0 <= a < h1.entries@.len() && 0 <= b < h1.entries@[a].children@.len()
                        && #[trigger] h1.entries@[a].parent@ == p && #[trigger] h1.entries@[a].children@[b]@ == c;
                if a != k {
                    lemma_sorted_distinct(h1.parents(), a, k);
                }
                assert(cv1[b] == c);
            }
        }
        lemma_sorted_unique(cv1, cv2);
    }
}

/// Hierarchies of the same shape have the same roots.
pub proof fn lemma_same_shape_roots(h1: Hierarchy, h2: Hierarchy, i: int)
    requires
        same_shape(h1, h2),
        0 <= i <= h1.entries@.len(),
    ensures
        h1.roots_upto(i) == h2.roots_upto(i),
    decreases i,
{
    if i > 0 {
        lemma_same_shape_roots(h1, h2, i - 1);
        let p = h1.entries@[i - 1].parent@;
        assert(h1.parents()[i - 1] == p);
        assert(h2.parents()[i - 1] == p);
        assert(h1.is_child(p) == h2.is_child(p)) by {
            if h1.is_child(p) {
                let (a, b) = choose|a: int, b: int|
                    0 <= a < h1.entries@.len() && 0 <= b < h1.entries@[a].children@.len()
                        && #[trigger] h1.entries@[a].children@[b]@ == p;
                assert(children_view(h1.entries@[a])[b] == p);
                assert(children_view(h2.entries@[a]).len() == h2.entries@[a].children@.len());
                assert(children_view(h2.entries@[a])[b] == p);
                assert(h2.entries@[a].children@[b]@ == p);
            }
            if h2.is_child(p) {
                let (a, b) = choose|a: int, b: int|
                    0 <= a < h2.entries@.len() && 0 <= b < h2.entries@[a].children@.len()
                        && #[trigger] h2.entries@[a].children@[b]@ == p;
                assert(children_view(h2.entries@[a])[b] == p);
                assert(children_view(h1.entries@[a]).len() == h1.entries@[a].children@.len());
                assert(children_view(h1.entries@[a])[b] == p);
                assert(h1.entries@[a].children@[b]@ == p);
            }
        }
    }
}

/// Trees grown from the same id in hierarchies of the same shape render alike.
pub proof fn lemma_tree_render_eq(
    h1: Hierarchy,
    h2: Hierarchy,
    n1: Node,
    n2: Node,
    id: Seq<char>,
    anc: Seq<usize>,
    prefix: Seq<char>,
    lasts: Seq<bool>,
)
    requires
        h1.wf(),
        h2.wf(),
        same_shape(h1, h2),
        is_tree_of(h1, n1, id, anc),
        is_tree_of(h2, n2, id, anc),
    ensures
        rendered(n1, prefix, lasts) == rendered(n2, prefix, lasts),
    decreases h1.entries@.len() - anc.len(), n1.children@.len() + 1,
{
    assert forall|k: int| open_parent(h1, id, anc, k) <==> open_parent(h2, id, anc, k) by {
        if 0 <= k < h1.entries@.len() {
            assert(h1.parents()[k] == h1.entries@[k].parent@);
            assert(h2.parents()[k] == h2.entries@[k].parent@);
        }
    }
    if anc.len() < h1.entries@.len() && exists|k: int| open_parent(h1, id, anc, k) {
        let k1 = choose|k: int| open_parent(h1, id, anc, k);
        let k2 = choose|k: int| open_parent(h2, id, anc, k);
        if k1 != k2 {
            assert(h1.parents()[k1] == id);
            assert(h1.parents()[k2] == id);
            lemma_sorted_distinct(h1.parents(), k1, k2);
        }
        assert(children_view(h1.entries@[k1]) == children_view(h2.entries@[k1]));
        lemma_children_render_eq(h1, h2, n1, n2, id, anc, k1, prefix, lasts, n1.children@.len() as int);
    } else {
        assert(rendered_children(n1, prefix, lasts, 0) == rendered_children(n2, prefix, lasts, 0));
    }
}

proof fn lemma_children_render_eq(
    h1: Hierarchy,
    h2: Hierarchy,
    n1: Node,
    n2: Node,
    id: Seq<char>,
    anc: Seq<usize>,
    k: int,
    prefix: Seq<char>,
    lasts: Seq<bool>,
    j: int,
)
    requires
        h1.wf(),
        h2.wf(),
        same_shape(h1, h2),
        anc.len() < h1.entries@.len(),
        0 <= k < h1.entries@.len(),
        0 <= j <= n1.children@.len(),
        n1.children@.len() == h1.entries@[k].children@.len(),
        n2.children@.len() == h2.entries@[k].children@.len(),
        children_view(h1.entries@[k]) == children_view(h2.entries@[k]),
        forall|i: int| 0 <= i < n1.children@.len() ==> is_tree_of(
            h1,
            #[trigger] n1.children@[i],
            h1.entries@[k].children@[i]@,
            anc.push(k as usize),
        ),
        forall|i: int| 0 <= i < n2.children@.len() ==> is_tree_of(
            h2,
            #[trigger] n2.children@[i],
            h2.entries@[k].children@[i]@,
            anc.push(k as usize),
        ),
    ensures
        rendered_children(n1, prefix, lasts, j) == rendered_children(n2, prefix, lasts, j),
    decreases h1.entries@.len() - anc.len(), j,
{
    if j > 0 {
        lemma_children_render_eq(h1, h2, n1, n2, id, anc, k, prefix, lasts, j - 1);
        let c = h1.entries@[k].children@[j - 1]@;
        assert(children_view(h1.entries@[k]).len() == h1.entries@[k].children@.len());
        assert(children_view(h2.entries@[k]).len() == h2.entries@[k].children@.len());
        assert(children_view(h1.entries@[k])[j - 1] == c);
        assert(children_view(h2.entries@[k])[j - 1] == h2.entries@[k].children@[j - 1]@);
        lemma_tree_render_eq(
            h1,
            h2,
            n1.children@[j - 1],
            n2.children@[j - 1],
            c,
            anc.push(k as usize),
            prefix,
            lasts.push(j - 1 == n1.children@.len() - 1),
        );
    }
}

} // verus!
