//! The ownership index across containers: which containers touch each path.
use vstd::prelude::*;
use crate::hierarchy::str_views;
use crate::order::{lemma_lt_transitive, lemma_lt_trichotomy};
use crate::text::{seq_lt, str_eq, str_lt};

verus! {

/// A container's identifier and the paths it touches.
pub struct Container {
    pub id: u32,
    pub paths: Vec<String>,
}

/// A path and the identifiers of the containers touching it, ascending.
pub struct OwnedPath {
    pub path: String,
    pub owners: Vec<u32>,
}

pub open spec fn touches(c: Container, p: Seq<char>) -> bool {
    str_views(c.paths@).contains(p)
}

/// The identifiers of the containers that touch `p`.
pub open spec fn owners_of(cs: Seq<Container>, p: Seq<char>) -> Set<u32> {
    Set::new(|id: u32| exists|k: int| 0 <= k < cs.len() && (#[trigger] cs[k]).id == id && touches(cs[k], p))
}

/// Some container touches `p`.
pub open spec fn touched(cs: Seq<Container>, p: Seq<char>) -> bool {
    exists|k: int| 0 <= k < cs.len() && touches(#[trigger] cs[k], p)
}

pub open spec fn ids_ascending(v: Seq<u32>) -> bool {
    forall|i: int, j: int| 0 <= i < j < v.len() ==> v[i] < v[j]
}

/// Entries order by number of owners, then by path.
pub open spec fn key_lt(an: int, ap: Seq<char>, bn: int, bp: Seq<char>) -> bool {
    an < bn || (an == bn && seq_lt(ap, bp))
}

pub open spec fn entry_lt(a: OwnedPath, b: OwnedPath) -> bool {
    key_lt(a.owners@.len() as int, a.path@, b.owners@.len() as int, b.path@)
}

proof fn lemma_key_lt_transitive(an: int, ap: Seq<char>, bn: int, bp: Seq<char>, cn: int, cp: Seq<char>)
    requires
        key_lt(an, ap, bn, bp),
        key_lt(bn, bp, cn, cp),
    ensures
        key_lt(an, ap, cn, cp),
{
    if an == bn && bn == cn {
        lemma_lt_transitive(ap, bp, cp);
    }
}

/// `r` indexes `cs`: one entry per touched path, each with exactly the
/// identifiers of the containers touching it, in ascending order; entries
/// by ascending number of owners, then by ascending path.
pub open spec fn index_of(r: Seq<OwnedPath>, cs: Seq<Container>) -> bool {
    &&& forall|k: int| 0 <= k < r.len() ==> touched(cs, (#[trigger] r[k]).path@)
    &&& forall|k: int| 0 <= k < r.len() ==> ids_ascending((#[trigger] r[k]).owners@)
    &&& forall|k: int| 0 <= k < r.len() ==> (#[trigger] r[k]).owners@.to_set() == owners_of(cs, r[k].path@)
    &&& forall|k: int, l: int| 0 <= k < l < r.len() ==> (#[trigger] r[k]).path@ != (#[trigger] r[l]).path@
    &&& forall|p: Seq<char>| touched(cs, p) ==> exists|k: int| 0 <= k < r.len() && (#[trigger] r[k]).path@ == p
    &&& forall|k: int, l: int| 0 <= k < l < r.len() ==> entry_lt(#[trigger] r[k], #[trigger] r[l])
}

/// Adds `x` to an ascending list of identifiers, unless it is there.
fn insert_id(v: &mut Vec<u32>, x: u32)
    requires
        ids_ascending(old(v)@),
    ensures
        ids_ascending(final(v)@),
        final(v)@.to_set() == old(v)@.to_set().insert(x),
{
    let ghost v0 = v@;
    let n = v.len();
    let mut k: usize = 0;
    while k < n && v[k] < x
        invariant
            n == v@.len(),
            v@ == v0,
            k <= n,
            forall|i: int| 0 <= i < k ==> v0[i] < x,
        decreases n - k,
    {
        k = k + 1;
    }
    if k < n && v[k] == x {
        assert(v0.to_set().insert(x) =~= v0.to_set());
        return;
    }
    v.insert(k, x);
    assert forall|y: u32| #[trigger] v@.to_set().contains(y) == v0.to_set().insert(x).contains(y) by {
        if v0.contains(y) {
            let i = choose|i: int| 0 <= i < v0.len() && v0[i] == y;
            if i < k {
                assert(v@[i] == y);
            } else {
                assert(v@[i + 1] == y);
            }
        }
        if y == x {
            assert(v@[k as int] == y);
        }
        if v@.contains(y) {
            let i = choose|i: int| 0 <= i < v@.len() && v@[i] == y;
            if i < k {
                assert(v0[i] == y);
            } else if i > k {
                assert(v0[i - 1] == y);
            }
        }
    }
    assert(v@.to_set() =~= v0.to_set().insert(x));
}

/// True when the container touches `p`.
fn touches_exec(c: &Container, p: &str) -> (r: bool)
    ensures
        r == touches(*c, p@),
{
    let mut i: usize = 0;
    while i < c.paths.len()
        invariant
            i <= c.paths@.len(),
            forall|j: int| 0 <= j < i ==> (#[trigger] c.paths@[j])@ != p@,
        decreases c.paths@.len() - i,
    {
        if str_eq(c.paths[i].as_str(), p) {
            assert(str_views(c.paths@)[i as int] == p@);
            return true;
        }
        i = i + 1;
    }
    assert forall|j: int| 0 <= j < str_views(c.paths@).len() implies str_views(c.paths@)[j] != p@ by {
        assert(c.paths@[j]@ != p@);
    }
    false
}

/// The identifiers of the containers that touch `p`, ascending.
fn owners_exec(cs: &Vec<Container>, p: &str) -> (r: Vec<u32>)
    ensures
        ids_ascending(r@),
        r@.to_set() == owners_of(cs@, p@),
{
    let mut r: Vec<u32> = Vec::new();
    let mut k: usize = 0;
    assert(r@.to_set() =~= Set::<u32>::empty());
    while k < cs.len()
        invariant
            k <= cs@.len(),
            ids_ascending(r@),
            r@.to_set() == Set::new(|id: u32| exists|q: int| 0 <= q < k && (#[trigger] cs@[q]).id == id && touches(cs@[q], p@)),
        decreases cs@.len() - k,
    {
        let ghost before = r@.to_set();
        if touches_exec(&cs[k], p) {
            insert_id(&mut r, cs[k].id);
        }
        assert(r@.to_set() =~= Set::new(|id: u32| exists|q: int| 0 <= q < k + 1 && (#[trigger] cs@[q]).id == id && touches(cs@[q], p@))) by {
            assert forall|id: u32| (exists|q: int| 0 <= q < k + 1 && (#[trigger] cs@[q]).id == id && touches(cs@[q], p@))
                implies r@.to_set().contains(id) by {
                let q = choose|q: int| 0 <= q < k + 1 && (#[trigger] cs@[q]).id == id && touches(cs@[q], p@);
                if q < k {
                    assert(before.contains(id));
                }
            }
        }
        k = k + 1;
    }
    assert(r@.to_set() =~= owners_of(cs@, p@));
    r
}

/// True when some entry of `r` is for `p`.
fn indexed(r: &Vec<OwnedPath>, p: &str) -> (b: bool)
    ensures
        b == exists|k: int| 0 <= k < r@.len() && (#[trigger] r@[k]).path@ == p@,
{
    let mut i: usize = 0;
    while i < r.len()
        invariant
            i <= r@.len(),
            forall|j: int| 0 <= j < i ==> (#[trigger] r@[j]).path@ != p@,
        decreases r@.len() - i,
    {
        if str_eq(r[i].path.as_str(), p) {
            return true;
        }
        i = i + 1;
    }
    false
}

/// Some entry of `r` is for `p`.
pub open spec fn listed(r: Seq<OwnedPath>, p: Seq<char>) -> bool {
    exists|k: int| 0 <= k < r.len() && (#[trigger] r[k]).path@ == p
}

/// The paths of container `k` before its `j`-th, and those of the
/// containers before it.
pub open spec fn seen(cs: Seq<Container>, k: int, j: int, p: Seq<char>) -> bool {
    (exists|q: int| 0 <= q < k && touches(#[trigger] cs[q], p))
        || (0 <= k < cs.len() && exists|i: int| 0 <= i < j && i < cs[k].paths@.len() && (#[trigger] cs[k].paths@[i])@ == p)
}

/// The ownership index of the containers: each path that some container
/// touches, with the containers touching it, fewest owners first.
pub fn build_ownership_index(cs: &Vec<Container>) -> (r: Vec<OwnedPath>)
    ensures
        index_of(r@, cs@),
{
    let mut r: Vec<OwnedPath> = Vec::new();
    let mut k: usize = 0;
    while k < cs.len()
        invariant
            k <= cs@.len(),
            forall|m: int| 0 <= m < r@.len() ==> touched(cs@, (#[trigger] r@[m]).path@),
            forall|m: int| 0 <= m < r@.len() ==> ids_ascending((#[trigger] r@[m]).owners@),
            forall|m: int| 0 <= m < r@.len() ==> (#[trigger] r@[m]).owners@.to_set() == owners_of(cs@, r@[m].path@),
            forall|m: int, l: int| 0 <= m < l < r@.len() ==> (#[trigger] r@[m]).path@ != (#[trigger] r@[l]).path@,
            forall|m: int, l: int| 0 <= m < l < r@.len() ==> entry_lt(#[trigger] r@[m], #[trigger] r@[l]),
            forall|p: Seq<char>| seen(cs@, k as int, 0, p) ==> listed(r@, p),
        decreases cs@.len() - k,
    {
        let c = &cs[k];
        let mut j: usize = 0;
        while j < c.paths.len()
            invariant
                k < cs@.len(),
                *c == cs@[k as int],
                j <= c.paths@.len(),
                forall|m: int| 0 <= m < r@.len() ==> touched(cs@, (#[trigger] r@[m]).path@),
                forall|m: int| 0 <= m < r@.len() ==> ids_ascending((#[trigger] r@[m]).owners@),
                forall|m: int| 0 <= m < r@.len() ==> (#[trigger] r@[m]).owners@.to_set() == owners_of(cs@, r@[m].path@),
                forall|m: int, l: int| 0 <= m < l < r@.len() ==> (#[trigger] r@[m]).path@ != (#[trigger] r@[l]).path@,
                forall|m: int, l: int| 0 <= m < l < r@.len() ==> entry_lt(#[trigger] r@[m], #[trigger] r@[l]),
                forall|p: Seq<char>| seen(cs@, k as int, j as int, p) ==> listed(r@, p),
            decreases c.paths@.len() - j,
        {
            let p = c.paths[j].as_str();
            assert(str_views(c.paths@)[j as int] == p@);
            assert(touches(cs@[k as int], p@));
            if !indexed(&r, p) {
                let owners = owners_exec(cs, p);
                let cnt = owners.len();
                let n = r.len();
                let mut q: usize = 0;
                while q < n && (r[q].owners.len() < cnt || (r[q].owners.len() == cnt && str_lt(r[q].path.as_str(), p)))
                    invariant
                        n == r@.len(),
                        q <= n,
                        forall|m: int| 0 <= m < q ==> key_lt(
                            (#[trigger] r@[m]).owners@.len() as int,
                            r@[m].path@,
                            cnt as int,
                            p@,
                        ),
                    decreases n - q,
                {
                    q = q + 1;
                }
                let ghost r0 = r@;
                assert(forall|pp: Seq<char>| seen(cs@, k as int, j as int, pp) ==> listed(r0, pp));
                proof {
                    if q < n {
                        assert(r0[q as int].path@ != p@);
                        lemma_lt_trichotomy(p@, r0[q as int].path@);
                    }
                }
                assert forall|m: int| q <= m < n implies key_lt(cnt as int, p@, (#[trigger] r0[m]).owners@.len() as int, r0[m].path@) by {
                    if m > q {
                        assert(entry_lt(r0[q as int], r0[m]));
                        lemma_key_lt_transitive(cnt as int, p@, r0[q as int].owners@.len() as int, r0[q as int].path@,
                            r0[m].owners@.len() as int, r0[m].path@);
                    }
                }
                let entry = OwnedPath { path: String::from_str(p), owners };
                let ghost e = entry;
                r.insert(q, entry);
                assert(r@ =~= r0.insert(q as int, e));
                assert forall|m: int| 0 <= m < r@.len() implies touched(cs@, (#[trigger] r@[m]).path@)
                    && ids_ascending(r@[m].owners@) && r@[m].owners@.to_set() == owners_of(cs@, r@[m].path@) by {
                    if m < q {
                        assert(r@[m] == r0[m]);
                    } else if m > q {
                        assert(r@[m] == r0[m - 1]);
                    } else {
                        assert(touches(cs@[k as int], p@));
                    }
                }
                assert forall|m: int, l: int| 0 <= m < l < r@.len() implies (#[trigger] r@[m]).path@ != (#[trigger] r@[l]).path@
                    && entry_lt(r@[m], r@[l]) by {
                    if l < q {
                    } else if m > q {
                        assert(r@[m] == r0[m - 1] && r@[l] == r0[l - 1]);
                    } else if m < q && l > q {
                        assert(r@[m] == r0[m] && r@[l] == r0[l - 1]);
                        assert(r0[m].path@ != p@);
                        assert(r0[l - 1].path@ != p@);
                        lemma_key_lt_transitive(r0[m].owners@.len() as int, r0[m].path@, cnt as int, p@,
                            r0[l - 1].owners@.len() as int, r0[l - 1].path@);
                    } else if m == q {
                        assert(r@[l] == r0[l - 1]);
                        assert(r0[l - 1].path@ != p@);
                    } else {
                        assert(r@[m] == r0[m]);
                        assert(r0[m].path@ != p@);
                    }
                }
                assert forall|pp: Seq<char>| seen(cs@, k as int, j + 1, pp) implies listed(r@, pp) by {
                    if pp == p@ {
                        assert(r@[q as int].path@ == pp);
                    } else {
                        assert(seen(cs@, k as int, j as int, pp));
                        assert(listed(r0, pp));
                        let m = choose|m: int| 0 <= m < r0.len() && (#[trigger] r0[m]).path@ == pp;
                        if m < q {
                            assert(r@[m].path@ == pp);
                        } else {
                            assert(r@[m + 1].path@ == pp);
                        }
                    }
                }
            } else {
                assert forall|pp: Seq<char>| seen(cs@, k as int, j + 1, pp) implies listed(r@, pp) by {
                    if pp != p@ {
                        assert(seen(cs@, k as int, j as int, pp));
                    }
                }
            }
            j = j + 1;
        }
        assert forall|pp: Seq<char>| seen(cs@, k + 1, 0, pp) implies listed(r@, pp) by {
            let q = choose|q: int| 0 <= q < k + 1 && touches(#[trigger] cs@[q], pp);
            if q == k {
                let i = choose|i: int| 0 <= i < str_views(c.paths@).len() && str_views(c.paths@)[i] == pp;
                assert(c.paths@[i]@ == pp);
                assert(seen(cs@, k as int, j as int, pp));
            } else {
                assert(seen(cs@, k as int, 0, pp));
            }
        }
        k = k + 1;
    }
    assert forall|p: Seq<char>| touched(cs@, p) implies listed(r@, p) by {
        assert(seen(cs@, k as int, 0, p));
    }
    r
}

/// When two containers touch the same path, the index has one entry for
/// that path, and it lists each of them, once.
pub proof fn lemma_shared_path_listed_once(cs: Seq<Container>, r: Seq<OwnedPath>, p: Seq<char>, a: int, b: int)
    requires
        index_of(r, cs),
        0 <= a < cs.len(),
        0 <= b < cs.len(),
        touches(cs[a], p),
        touches(cs[b], p),
    ensures
        exists|k: int| 0 <= k < r.len() && (#[trigger] r[k]).path@ == p
            && r[k].owners@.contains(cs[a].id) && r[k].owners@.contains(cs[b].id)
            && forall|l: int| 0 <= l < r.len() && l != k ==> (#[trigger] r[l]).path@ != p,
        forall|k: int, i: int, j: int| 0 <= k < r.len() && 0 <= i < j < r[k].owners@.len()
            ==> (#[trigger] r[k].owners@[i]) != (#[trigger] r[k].owners@[j]),
{
    assert(touched(cs, p));
    let k = choose|k: int| 0 <= k < r.len() && (#[trigger] r[k]).path@ == p;
    assert(owners_of(cs, p).contains(cs[a].id));
    assert(owners_of(cs, p).contains(cs[b].id));
    assert(r[k].owners@.to_set().contains(cs[a].id));
    assert(r[k].owners@.to_set().contains(cs[b].id));
    assert forall|l: int| 0 <= l < r.len() && l != k implies (#[trigger] r[l]).path@ != p by {
        if l < k {
            assert(r[l].path@ != r[k].path@);
        } else {
            assert(r[k].path@ != r[l].path@);
        }
    }
    assert forall|k2: int, i: int, j: int| 0 <= k2 < r.len() && 0 <= i < j < r[k2].owners@.len()
        implies (#[trigger] r[k2].owners@[i]) != (#[trigger] r[k2].owners@[j]) by {
        assert(ids_ascending(r[k2].owners@));
    }
}

} // verus!
