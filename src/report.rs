//! From per-asset metadata to the report: records, the hierarchy's edges,
//! the forest and its rendering.
use vstd::prelude::*;
use vstd::string::*;
use crate::asset::{get_full_path, get_parent_path, get_type, AssetTables, MetaError};
use crate::hierarchy::{
    build_forest, is_tree_of, meets_cycle, unreached_parent, lemma_same_edges_same_shape, lemma_same_shape_roots, lemma_tree_render_eq, same_shape,
    Hierarchy,
};
use crate::text::str_eq;
use crate::tree::{rendered, Node};

verus! {

/// One asset as the report sees it: its full path, its class or why it is
/// unknown, and its superclass's qualified label, if it has one.
pub struct AssetRecord {
    pub full_path: String,
    pub class_name: Result<String, String>,
    pub parent: Option<String>,
}

/// Some record has the full path `p`.
pub open spec fn resolvable(rs: Seq<AssetRecord>, p: Seq<char>) -> bool {
    exists|j: int| 0 <= j < rs.len() && (#[trigger] rs[j]).full_path@ == p
}

/// The record `i` draws the edge from its parent to itself.
pub open spec fn draws_edge(rs: Seq<AssetRecord>, i: int, pc: (Seq<char>, Seq<char>)) -> bool {
    &&& rs[i].parent matches Some(p)
    &&& p@ == pc.0
    &&& rs[i].full_path@ == pc.1
    &&& resolvable(rs, pc.0)
}

/// The forest edges of the first `n` records: from a parent that is itself
/// one of the records to the record.
pub open spec fn record_edges(rs: Seq<AssetRecord>, n: int) -> Set<(Seq<char>, Seq<char>)> {
    Set::new(|pc: (Seq<char>, Seq<char>)| exists|i: int| 0 <= i < n && #[trigger] draws_edge(rs, i, pc))
}

pub open spec fn class_view(c: Result<String, String>) -> Result<Seq<char>, Seq<char>> {
    match c {
        Ok(s) => Ok(s@),
        Err(m) => Err(m@),
    }
}

pub open spec fn label_view(p: Option<String>) -> Option<Seq<char>> {
    match p {
        Some(s) => Some(s@),
        None => None,
    }
}

/// The text of a metadata error.
pub open spec fn error_text(e: MetaError) -> Seq<char> {
    match e {
        MetaError::NoRootExport => "no root export"@,
        MetaError::MissingClassImport => "missing class import"@,
        MetaError::MissingImport => "missing import"@,
        MetaError::ImportCycle => "import cycle"@,
    }
}

fn error_string(e: MetaError) -> (r: String)
    ensures
        r@ == error_text(e),
{
    String::from_str(match e {
        MetaError::NoRootExport => "no root export",
        MetaError::MissingClassImport => "missing class import",
        MetaError::MissingImport => "missing import",
        MetaError::ImportCycle => "import cycle",
    })
}

/// True when some record has the full path `p`.
fn resolvable_exec(rs: &Vec<AssetRecord>, p: &str) -> (r: bool)
    ensures
        r == resolvable(rs@, p@),
{
    let mut j: usize = 0;
    while j < rs.len()
        invariant
            j <= rs@.len(),
            forall|q: int| 0 <= q < j ==> (#[trigger] rs@[q]).full_path@ != p@,
        decreases rs@.len() - j,
    {
        if str_eq(rs[j].full_path.as_str(), p) {
            return true;
        }
        j = j + 1;
    }
    false
}

/// The record of an asset at in-game path `path`, from its tables or the
/// reason they could not be read. Without tables, or without a root export,
/// the record keeps `path` and has the error for a class; a superclass
/// label that cannot be read makes its error the record's class, so the
/// asset is Unknown, and leaves the record without a parent.
pub fn record_of(path: &str, tables: &Result<AssetTables, String>) -> (r: AssetRecord)
    ensures
        match tables {
            Err(msg) => r.full_path@ == path@ && class_view(r.class_name) == Err::<Seq<char>, Seq<char>>(msg@)
                && r.parent is None,
            Ok(t) => match get_full_path_spec(path@, *t) {
                None => r.full_path@ == path@ && class_view(r.class_name) == Err::<Seq<char>, Seq<char>>(
                    error_text(MetaError::NoRootExport),
                ) && r.parent is None,
                Some(f) => r.full_path@ == f && match parent_error(*t) {
                    Some(e) => class_view(r.class_name) == Err::<Seq<char>, Seq<char>>(error_text(e)),
                    None => class_matches(r.class_name, *t),
                } && parent_matches(r.parent, *t),
            },
        },
{
    match tables {
        Err(msg) => AssetRecord { full_path: String::from_str(path), class_name: Err(String::from_str(msg.as_str())), parent: None },
        Ok(t) => {
            match get_full_path(path, t) {
                Err(e) => AssetRecord { full_path: String::from_str(path), class_name: Err(error_string(e)), parent: None },
                Ok(full) => {
                    let ty = get_type(t);
                    let pl = get_parent_path(t);
                    proof {
                        let w = choose|w: int| #[trigger] crate::asset::is_root(*t, w)
                            && full@ == path@ + seq!['.'] + t.exports@[w].object_name@;
                        assert(crate::asset::has_root(*t));
                        let i = choose|i: int| #[trigger] crate::asset::is_root(*t, i);
                        crate::asset::lemma_root_unique(*t, i, w);
                        match &ty {
                            Ok(c) => {
                                let v = choose|v: int| #[trigger] crate::asset::is_root(*t, v)
                                    && crate::asset::import_at(*t, t.exports@[v].class_index as int) == Some(
                                        t.imports@[-(t.exports@[v].class_index as int) - 1],
                                    ) && c@ == t.imports@[-(t.exports@[v].class_index as int) - 1].object_name@;
                                crate::asset::lemma_root_unique(*t, i, v);
                            },
                            Err(e) => {
                                let v = choose|v: int| #[trigger] crate::asset::is_root(*t, v)
                                    && crate::asset::import_at(*t, t.exports@[v].class_index as int) is None;
                                crate::asset::lemma_root_unique(*t, i, v);
                            },
                        }
                        match &pl {
                            Ok(l) => {
                                let v = choose|v: int| #[trigger] crate::asset::is_root(*t, v)
                                    && crate::asset::parent_label(*t, v) == Ok::<Option<Seq<char>>, MetaError>(match l {
                                        Some(s) => Some(s@),
                                        None => None,
                                    });
                                crate::asset::lemma_root_unique(*t, i, v);
                            },
                            Err(e) => {
                                if *e != MetaError::NoRootExport {
                                    let v = choose|v: int| #[trigger] crate::asset::is_root(*t, v)
                                        && crate::asset::parent_label(*t, v) == Err::<Option<Seq<char>>, MetaError>(*e);
                                    crate::asset::lemma_root_unique(*t, i, v);
                                }
                            },
                        }
                    }
                    let (class_name, parent) = match pl {
                        Ok(l) => (
                            match ty {
                                Ok(c) => Ok(c),
                                Err(e) => Err(error_string(e)),
                            },
                            l,
                        ),
                        Err(e) => (Err(error_string(e)), None),
                    };
                    AssetRecord { full_path: full, class_name, parent }
                },
            }
        },
    }
}

/// The full path of an asset with tables `t` at `path`: `None` without a
/// root export.
pub open spec fn get_full_path_spec(path: Seq<char>, t: AssetTables) -> Option<Seq<char>> {
    if crate::asset::has_root(t) {
        let i = choose|i: int| #[trigger] crate::asset::is_root(t, i);
        Some(path + seq!['.'] + t.exports@[i].object_name@)
    } else {
        None
    }
}

/// The class read from `t`, or the text of the error that stopped it.
pub open spec fn class_matches(c: Result<String, String>, t: AssetTables) -> bool {
    let i = choose|i: int| #[trigger] crate::asset::is_root(t, i);
    let ci = t.exports@[i].class_index as int;
    match crate::asset::import_at(t, ci) {
        Some(imp) => class_view(c) == Ok::<Seq<char>, Seq<char>>(imp.object_name@),
        None => class_view(c) == Err::<Seq<char>, Seq<char>>(error_text(MetaError::MissingClassImport)),
    }
}

/// The error that stops reading the superclass label of `t`, if any.
pub open spec fn parent_error(t: AssetTables) -> Option<MetaError> {
    let i = choose|i: int| #[trigger] crate::asset::is_root(t, i);
    match crate::asset::parent_label(t, i) {
        Err(e) => Some(e),
        Ok(_) => None,
    }
}

/// The superclass label read from `t`; none where it cannot be read.
pub open spec fn parent_matches(p: Option<String>, t: AssetTables) -> bool {
    let i = choose|i: int| #[trigger] crate::asset::is_root(t, i);
    match crate::asset::parent_label(t, i) {
        Ok(Some(l)) => label_view(p) == Some(l),
        _ => p is None,
    }
}

/// The hierarchy of the records: an edge from each record's parent to the
/// record, where the parent is itself one of the records.
pub fn hierarchy_of(records: &Vec<AssetRecord>) -> (h: Hierarchy)
    ensures
        h.wf(),
        h.edges() == record_edges(records@, records@.len() as int),
{
    let mut h = Hierarchy::new();
    let mut i: usize = 0;
    assert(h.edges() =~= record_edges(records@, 0));
    while i < records.len()
        invariant
            i <= records@.len(),
            h.wf(),
            h.edges() == record_edges(records@, i as int),
        decreases records@.len() - i,
    {
        let ghost before = h.edges();
        if let Some(p) = &records[i].parent {
            if resolvable_exec(records, p.as_str()) {
                h.insert_edge(p.as_str(), records[i].full_path.as_str());
                assert(draws_edge(records@, i as int, (p@, records@[i as int].full_path@)));
            }
        }
        assert forall|pc: (Seq<char>, Seq<char>)| #[trigger] h.edges().contains(pc) == record_edges(records@, i + 1).contains(pc) by {
            if draws_edge(records@, i as int, pc) {
                assert(h.edges().contains(pc));
            }
            if record_edges(records@, i + 1).contains(pc) {
                let q = choose|q: int| 0 <= q < i + 1 && #[trigger] draws_edge(records@, q, pc);
                if q < i {
                    assert(before.contains(pc));
                }
            }
        }
        assert(h.edges() =~= record_edges(records@, i + 1));
        i = i + 1;
    }
    h
}

/// The records' hierarchy and its forest, one tree per root, and whether a
/// parent chain runs in a circle (cut below a root, or reached by none).
pub fn class_hierarchy(records: &Vec<AssetRecord>) -> (r: (Hierarchy, Vec<Node>, bool))
    ensures
        r.0.wf(),
        r.0.edges() == record_edges(records@, records@.len() as int),
        r.1@.len() == r.0.roots().len(),
        forall|i: int| 0 <= i < r.1@.len() ==> is_tree_of(r.0, #[trigger] r.1@[i], r.0.roots()[i], seq![]),
        r.2 == ((exists|i: int| 0 <= i < r.1@.len() && meets_cycle(r.0, #[trigger] r.1@[i], r.0.roots()[i], seq![]))
            || unreached_parent(r.0, r.1@)),
{
    let h = hierarchy_of(records);
    let forest = build_forest(&h);
    let ghost trees = forest.0@;
    let r = (h, forest.0, forest.1);
    assert(r.1@ == trees);
    r
}

/// The trees rendered one after another.
pub open spec fn rendered_forest(trees: Seq<Node>, prefix: Seq<char>) -> Seq<char>
    decreases trees.len(),
{
    if trees.len() == 0 {
        seq![]
    } else {
        rendered_forest(trees.drop_last(), prefix) + rendered(trees.last(), prefix, seq![])
    }
}

/// Renders each tree in turn, each line starting with `prefix`.
pub fn render_forest(trees: &Vec<Node>, prefix: &str) -> (r: String)
    ensures
        r@ == rendered_forest(trees@, prefix@),
{
    let mut out = String::new();
    let mut i: usize = 0;
    while i < trees.len()
        invariant
            i <= trees@.len(),
            out@ == rendered_forest(trees@.take(i as int), prefix@),
        decreases trees@.len() - i,
    {
        let t = trees[i].print(prefix);
        out.append(t.as_str());
        assert(trees@.take(i + 1).drop_last() =~= trees@.take(i as int));
        i = i + 1;
    }
    assert(trees@.take(i as int) =~= trees@);
    out
}

proof fn lemma_forest_render_eq(h1: Hierarchy, h2: Hierarchy, t1: Seq<Node>, t2: Seq<Node>, roots: Seq<Seq<char>>, prefix: Seq<char>)
    requires
        h1.wf(),
        h2.wf(),
        same_shape(h1, h2),
        t1.len() == roots.len(),
        t2.len() == roots.len(),
        forall|i: int| 0 <= i < t1.len() ==> is_tree_of(h1, #[trigger] t1[i], roots[i], seq![]),
        forall|i: int| 0 <= i < t2.len() ==> is_tree_of(h2, #[trigger] t2[i], roots[i], seq![]),
    ensures
        rendered_forest(t1, prefix) == rendered_forest(t2, prefix),
    decreases t1.len(),
{
    if t1.len() > 0 {
        let n = t1.len() - 1;
        lemma_forest_render_eq(h1, h2, t1.drop_last(), t2.drop_last(), roots.drop_last(), prefix);
        lemma_tree_render_eq(h1, h2, t1[n], t2[n], roots[n], seq![], prefix, seq![]);
    }
}

/// Forests built from two hierarchies with the same edges (the same
/// hierarchy built twice, say) render to the same text.
pub proof fn lemma_trees_render_alike(h1: Hierarchy, t1: Seq<Node>, h2: Hierarchy, t2: Seq<Node>, prefix: Seq<char>)
    requires
        h1.wf(),
        h2.wf(),
        h1.edges() == h2.edges(),
        t1.len() == h1.roots().len(),
        forall|i: int| 0 <= i < t1.len() ==> is_tree_of(h1, #[trigger] t1[i], h1.roots()[i], seq![]),
        t2.len() == h2.roots().len(),
        forall|i: int| 0 <= i < t2.len() ==> is_tree_of(h2, #[trigger] t2[i], h2.roots()[i], seq![]),
    ensures
        h1.roots() == h2.roots(),
        rendered_forest(t1, prefix) == rendered_forest(t2, prefix),
{
    lemma_same_edges_same_shape(h1, h2);
    lemma_same_shape_roots(h1, h2, h1.entries@.len() as int);
    lemma_forest_render_eq(h1, h2, t1, t2, h1.roots(), prefix);
}

/// Building the class hierarchy of the same records again, and rendering
/// it, gives the same text.
pub proof fn lemma_render_repeatable(
    rs: Seq<AssetRecord>,
    h1: Hierarchy,
    t1: Seq<Node>,
    h2: Hierarchy,
    t2: Seq<Node>,
    prefix: Seq<char>,
)
    requires
        h1.wf(),
        h1.edges() == record_edges(rs, rs.len() as int),
        t1.len() == h1.roots().len(),
        forall|i: int| 0 <= i < t1.len() ==> is_tree_of(h1, #[trigger] t1[i], h1.roots()[i], seq![]),
        h2.wf(),
        h2.edges() == record_edges(rs, rs.len() as int),
        t2.len() == h2.roots().len(),
        forall|i: int| 0 <= i < t2.len() ==> is_tree_of(h2, #[trigger] t2[i], h2.roots()[i], seq![]),
    ensures
        rendered_forest(t1, prefix) == rendered_forest(t2, prefix),
{
    lemma_trees_render_alike(h1, t1, h2, t2, prefix);
}

} // verus!
