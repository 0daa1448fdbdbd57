//! What the hierarchy and the table need of an asset's object tables: the
//! root export, its class, its full path and its parent's qualified label.
use vstd::prelude::*;
use vstd::string::*;
use crate::text::concat;

verus! {

/// An object defined in the asset. Indices follow the package convention:
/// 0 is none, `i > 0` the export `i - 1`, `i < 0` the import `-i - 1`.
pub struct ExportEntry {
    pub object_name: String,
    pub class_index: i32,
    pub super_index: i32,
    pub outer_index: i32,
}

/// An object defined elsewhere and referred to by the asset.
pub struct ImportEntry {
    pub object_name: String,
    pub outer_index: i32,
}

/// An asset's export and import tables.
pub struct AssetTables {
    pub exports: Vec<ExportEntry>,
    pub imports: Vec<ImportEntry>,
}

/// Why an asset's metadata could not be read.
#[derive(PartialEq, Eq, Structural, Clone, Copy, Debug)]
pub enum MetaError {
    NoRootExport,
    MissingClassImport,
    MissingImport,
    /// The chain of owning imports runs in a circle.
    ImportCycle,
}

/// No export before `i` lacks an owner.
pub open spec fn owned_before(t: AssetTables, i: int) -> bool {
    forall|j: int| 0 <= j < i ==> (#[trigger] t.exports@[j]).outer_index != 0
}

/// The root export: the first one without an owning object.
pub open spec fn is_root(t: AssetTables, i: int) -> bool {
    0 <= i < t.exports@.len() && t.exports@[i].outer_index == 0 && owned_before(t, i)
}

pub open spec fn has_root(t: AssetTables) -> bool {
    exists|i: int| #[trigger] is_root(t, i)
}

/// The import that a package index names, if it names one.
pub open spec fn import_at(t: AssetTables, idx: int) -> Option<ImportEntry> {
    if idx < 0 && -idx - 1 < t.imports@.len() {
        Some(t.imports@[-idx - 1])
    } else {
        None
    }
}

/// The names from the outermost owner down to the import `idx`, following
/// owning imports at most `fuel` times.
pub open spec fn import_chain(t: AssetTables, idx: int, fuel: nat) -> Result<Seq<Seq<char>>, MetaError>
    decreases fuel,
{
    if idx >= 0 {
        Ok(seq![])
    } else {
        match import_at(t, idx) {
            None => Err(MetaError::MissingImport),
            Some(imp) => if fuel == 0 {
                Err(MetaError::ImportCycle)
            } else {
                match import_chain(t, imp.outer_index as int, (fuel - 1) as nat) {
                    Ok(outer) => Ok(outer.push(imp.object_name@)),
                    Err(e) => Err(e),
                }
            },
        }
    }
}

/// The names joined by `.`.
pub open spec fn dotted(cs: Seq<Seq<char>>) -> Seq<char>
    decreases cs.len(),
{
    if cs.len() == 0 {
        seq![]
    } else if cs.len() == 1 {
        cs[0]
    } else {
        dotted(cs.drop_last()) + seq!['.'] + cs.last()
    }
}

/// The qualified label of the superclass of the root export `i`: `None`
/// when it has none.
pub open spec fn parent_label(t: AssetTables, i: int) -> Result<Option<Seq<char>>, MetaError> {
    let s = t.exports@[i].super_index as int;
    if s == 0 {
        Ok(None)
    } else {
        match import_chain(t, s, t.imports@.len()) {
            Ok(cs) => Ok(Some(dotted(cs))),
            Err(e) => Err(e),
        }
    }
}

/// The root export's index.
pub fn get_root_export(asset: &AssetTables) -> (r: Result<usize, MetaError>)
    ensures
        match r {
            Ok(i) => is_root(*asset, i as int),
            Err(e) => e == MetaError::NoRootExport && !has_root(*asset),
        },
{
    let mut i: usize = 0;
    while i < asset.exports.len()
        invariant
            i <= asset.exports@.len(),
            owned_before(*asset, i as int),
        decreases asset.exports@.len() - i,
    {
        if asset.exports[i].outer_index == 0 {
            return Ok(i);
        }
        i = i + 1;
    }
    assert forall|k: int| !#[trigger] is_root(*asset, k) by {
        if 0 <= k < asset.exports@.len() {
            assert(asset.exports@[k].outer_index != 0);
        }
    }
    Err(MetaError::NoRootExport)
}

pub proof fn lemma_root_unique(t: AssetTables, i: int, j: int)
    requires
        is_root(t, i),
        is_root(t, j),
    ensures
        i == j,
{
    if i < j {
        assert(t.exports@[i].outer_index != 0);
    } else if j < i {
        assert(t.exports@[j].outer_index != 0);
    }
}

/// The class of the asset: the name of the import that its root export's
/// class refers to.
pub fn get_type(asset: &AssetTables) -> (r: Result<String, MetaError>)
    ensures
        match r {
            Ok(c) => exists|i: int| #[trigger] is_root(*asset, i)
                && import_at(*asset, asset.exports@[i].class_index as int) == Some(
                    asset.imports@[-(asset.exports@[i].class_index as int) - 1],
                ) && c@ == asset.imports@[-(asset.exports@[i].class_index as int) - 1].object_name@,
            Err(MetaError::NoRootExport) => !has_root(*asset),
            Err(MetaError::MissingClassImport) => exists|i: int| #[trigger] is_root(*asset, i)
                && import_at(*asset, asset.exports@[i].class_index as int) is None,
            Err(_) => false,
        },
{
    let root = get_root_export(asset)?;
    let ci = asset.exports[root].class_index;
    if ci < 0 && ((-(ci as i64) - 1) as usize) < asset.imports.len() {
        let k = (-(ci as i64) - 1) as usize;
        Ok(String::from_str(asset.imports[k].object_name.as_str()))
    } else {
        Err(MetaError::MissingClassImport)
    }
}

/// The asset's full path: its in-game path, a dot, its root export's name.
pub fn get_full_path(path: &str, asset: &AssetTables) -> (r: Result<String, MetaError>)
    ensures
        match r {
            Ok(f) => exists|i: int| #[trigger] is_root(*asset, i)
                && f@ == path@ + seq!['.'] + asset.exports@[i].object_name@,
            Err(e) => e == MetaError::NoRootExport && !has_root(*asset),
        },
{
    let root = get_root_export(asset)?;
    proof { reveal_strlit("."); }
    let p = concat(path, ".");
    Ok(concat(p.as_str(), asset.exports[root].object_name.as_str()))
}

/// The names joined by `.`.
fn join_dotted(cs: &Vec<String>) -> (r: String)
    ensures
        r@ == dotted(cs@.map_values(|c: String| c@)),
{
    let ghost v = cs@.map_values(|c: String| c@);
    let mut r = String::new();
    let mut i: usize = 0;
    proof { reveal_strlit("."); }
    while i < cs.len()
        invariant
            i <= cs@.len(),
            v == cs@.map_values(|c: String| c@),
            r@ == dotted(v.take(i as int)),
            "."@ == seq!['.'],
        decreases cs@.len() - i,
    {
        if i > 0 {
            r.append(".");
        }
        r.append(cs[i].as_str());
        assert(v.take(i + 1).drop_last() =~= v.take(i as int));
        i = i + 1;
    }
    assert(v.take(i as int) =~= v);
    r
}

/// The qualified label of the root export's superclass: its name after the
/// names of the imports that own it, outermost first, joined by `.`; `None`
/// when the root export has no superclass.
pub fn get_parent_path(asset: &AssetTables) -> (r: Result<Option<String>, MetaError>)
    ensures
        match r {
            Ok(l) => exists|i: int| #[trigger] is_root(*asset, i)
                && parent_label(*asset, i) == Ok::<Option<Seq<char>>, MetaError>(match l {
                    Some(s) => Some(s@),
                    None => None,
                }),
            Err(MetaError::NoRootExport) => !has_root(*asset),
            Err(e) => exists|i: int| #[trigger] is_root(*asset, i) && parent_label(*asset, i)
                == Err::<Option<Seq<char>>, MetaError>(e),
        },
{
    let root = get_root_export(asset)?;
    let s = asset.exports[root].super_index;
    assert(is_root(*asset, root as int));
    if s == 0 {
        return Ok(None);
    }
    let n = asset.imports.len();
    let ghost full = import_chain(*asset, s as int, n as nat);
    let mut names: Vec<String> = Vec::new();
    let mut idx: i32 = s;
    let mut steps: usize = 0;
    while idx < 0
        invariant
            n == asset.imports@.len(),
            steps <= n,
            is_root(*asset, root as int),
            s == asset.exports@[root as int].super_index,
            s != 0,
            full == import_chain(*asset, s as int, n as nat),
            full == match import_chain(*asset, idx as int, (n - steps) as nat) {
                Ok(outer) => Ok(outer + names@.map_values(|c: String| c@)),
                Err(e) => Err(e),
            },
        decreases n - steps,
    {
        let k = (-(idx as i64) - 1) as usize;
        if k >= n {
            return Err(MetaError::MissingImport);
        }
        if steps == n {
            return Err(MetaError::ImportCycle);
        }
        let imp = &asset.imports[k];
        let ghost old_names = names@.map_values(|c: String| c@);
        names.insert(0, String::from_str(imp.object_name.as_str()));
        assert(names@.map_values(|c: String| c@) =~= seq![imp.object_name@] + old_names);
        proof {
            match import_chain(*asset, imp.outer_index as int, (n - steps - 1) as nat) {
                Ok(outer) => {
                    assert(outer.push(imp.object_name@) + old_names =~= outer + (seq![imp.object_name@] + old_names));
                },
                Err(e) => {},
            }
        }
        idx = imp.outer_index;
        steps = steps + 1;
    }
    assert(import_chain(*asset, idx as int, (n - steps) as nat) == Ok::<Seq<Seq<char>>, MetaError>(seq![]));
    assert(seq![] + names@.map_values(|c: String| c@) =~= names@.map_values(|c: String| c@));
    Ok(Some(join_dotted(&names)))
}

} // verus!
