//! The extension and pairing analysis of a container's members.
use vstd::prelude::*;
use vstd::string::*;
use crate::hierarchy::{insert_sorted, str_views};
use crate::order::strictly_sorted;
use crate::paths::{components, copy_strings, game_path, game_path_of, is_normal, is_normal_exec, join_parts, joined, mount_base, mount_base_of, unix_components};
use crate::text::{concat, str_eq};

verus! {

/// A member of a container: its path's components with the extension taken
/// off the last one, and that extension.
pub struct Entry {
    pub parts: Vec<String>,
    pub extension: Option<String>,
}

/// A complete asset pair: its stem's components under the mount base, and
/// the container member that holds its primary data.
pub struct AssetPair {
    pub stem: Vec<String>,
    pub member: String,
}

/// What the analysis finds: extraneous files and split pairs (each in
/// ascending order), and the complete pairs, in the order of their
/// export files.
pub struct LintReport {
    pub extraneous: Vec<String>,
    pub split_pairs: Vec<String>,
    pub pairs: Vec<AssetPair>,
}

/// Why a container cannot be analysed.
#[derive(PartialEq, Eq, Debug)]
pub enum AuditError {
    /// The mount point, which does not start with `../../../`.
    InvalidMountPoint(String),
}

pub open spec fn opt_view(o: Option<String>) -> Option<Seq<char>> {
    match o {
        Some(s) => Some(s@),
        None => None,
    }
}

/// The index of the last `.` among the first `i` characters, or -1.
pub open spec fn last_dot(name: Seq<char>, i: int) -> int
    decreases i,
{
    if i <= 0 || i > name.len() {
        -1
    } else if name[i - 1] == '.' {
        i - 1
    } else {
        last_dot(name, i - 1)
    }
}

/// The index of the dot that starts the file name's extension, if it has one:
/// the last dot, unless the name has no dot but a leading one.
pub open spec fn extension_dot(cs: Seq<Seq<char>>) -> int {
    if cs.len() > 0 && is_normal(cs.last()) && last_dot(cs.last(), cs.last().len() as int) > 0 {
        last_dot(cs.last(), cs.last().len() as int)
    } else {
        -1
    }
}

pub open spec fn extension_of(cs: Seq<Seq<char>>) -> Option<Seq<char>> {
    let d = extension_dot(cs);
    if d > 0 {
        Some(cs.last().subrange(d + 1, cs.last().len() as int))
    } else {
        None
    }
}

pub open spec fn stem_parts(cs: Seq<Seq<char>>) -> Seq<Seq<char>> {
    let d = extension_dot(cs);
    if d > 0 {
        cs.drop_last().push(cs.last().subrange(0, d))
    } else {
        cs
    }
}

/// The extensions that packaged content may have.
pub open spec fn valid_extension(e: Seq<char>) -> bool {
    e == "uasset"@ || e == "uexp"@ || e == "umap"@ || e == "ubulk"@ || e == "ufont"@ || e == "ini"@
        || e == "locres"@
}

/// The one path that is not extraneous whatever its extension.
pub open spec fn exempt_path() -> Seq<char> {
    "FSD/AssetRegistry.bin"@
}

/// A path of components with an extension appended.
pub open spec fn with_ext(cs: Seq<Seq<char>>, e: Seq<char>) -> Seq<char> {
    joined(cs) + seq!['.'] + e
}

/// An entry as values: its stem's components and its extension.
pub type EntryView = (Seq<Seq<char>>, Option<Seq<char>>);

pub open spec fn entry_view(e: Entry) -> EntryView {
    (str_views(e.parts@), opt_view(e.extension))
}

pub open spec fn entry_views(es: Seq<Entry>) -> Seq<EntryView> {
    es.map_values(|e: Entry| entry_view(e))
}

/// The entry of a member path.
pub open spec fn entry_of_path(f: Seq<char>) -> EntryView {
    (stem_parts(unix_components(f)), extension_of(unix_components(f)))
}

/// The path of an entry under the mount base.
pub open spec fn display(base: Seq<Seq<char>>, e: EntryView) -> Seq<char> {
    match e.1 {
        Some(x) => with_ext(base + e.0, x),
        None => joined(base + e.0),
    }
}

/// Some entry has the stem `stem` and the extension `x`.
pub open spec fn has_ext(es: Seq<EntryView>, stem: Seq<Seq<char>>, x: Seq<char>) -> bool {
    exists|i: int| 0 <= i < es.len() && (#[trigger] es[i]).0 == stem && es[i].1 == Some(x)
}

pub open spec fn has_primary(es: Seq<EntryView>, stem: Seq<Seq<char>>) -> bool {
    has_ext(es, stem, "uasset"@) || has_ext(es, stem, "umap"@)
}

/// Exactly one half of the pair is there.
pub open spec fn is_split(es: Seq<EntryView>, stem: Seq<Seq<char>>) -> bool {
    has_primary(es, stem) != has_ext(es, stem, "uexp"@)
}

pub open spec fn is_extraneous(base: Seq<Seq<char>>, e: EntryView) -> bool {
    (match e.1 {
        Some(x) => !valid_extension(x),
        None => true,
    }) && display(base, e) != exempt_path()
}

/// The extraneous paths among the first `i` entries.
pub open spec fn extraneous_upto(base: Seq<Seq<char>>, es: Seq<EntryView>, i: int) -> Set<Seq<char>>
    decreases i,
{
    if i <= 0 || i > es.len() {
        Set::empty()
    } else if is_extraneous(base, es[i - 1]) {
        extraneous_upto(base, es, i - 1).insert(display(base, es[i - 1]))
    } else {
        extraneous_upto(base, es, i - 1)
    }
}

/// The split-pair paths among the first `i` entries.
pub open spec fn split_upto(base: Seq<Seq<char>>, es: Seq<EntryView>, i: int) -> Set<Seq<char>>
    decreases i,
{
    if i <= 0 || i > es.len() {
        Set::empty()
    } else if es[i - 1].1 is Some && is_split(es, es[i - 1].0) {
        split_upto(base, es, i - 1).insert(display(base, es[i - 1]))
    } else {
        split_upto(base, es, i - 1)
    }
}

/// An export entry whose primary data is there too.
pub open spec fn completes_pair(es: Seq<EntryView>, e: EntryView) -> bool {
    e.1 == Some("uexp"@) && has_primary(es, e.0)
}

/// The member holding the primary data of the pair of stem `stem`.
pub open spec fn primary_member(es: Seq<EntryView>, stem: Seq<Seq<char>>) -> Seq<char> {
    if has_ext(es, stem, "uasset"@) {
        with_ext(stem, "uasset"@)
    } else {
        with_ext(stem, "umap"@)
    }
}

/// The complete pairs among the first `i` entries, as (stem under the
/// base, primary member).
pub open spec fn pairs_upto(base: Seq<Seq<char>>, es: Seq<EntryView>, i: int) -> Seq<(Seq<Seq<char>>, Seq<char>)>
    decreases i,
{
    if i <= 0 || i > es.len() {
        seq![]
    } else if completes_pair(es, es[i - 1]) {
        let stem = es[i - 1].0;
        pairs_upto(base, es, i - 1).push((base + stem, primary_member(es, stem)))
    } else {
        pairs_upto(base, es, i - 1)
    }
}

pub open spec fn pair_view(p: AssetPair) -> (Seq<Seq<char>>, Seq<char>) {
    (str_views(p.stem@), p.member@)
}

/// The report's view: a correct analysis of `es` under `base`.
pub open spec fn analysis_of(r: LintReport, base: Seq<Seq<char>>, es: Seq<EntryView>) -> bool {
    &&& strictly_sorted(str_views(r.extraneous@))
    &&& str_views(r.extraneous@).to_set() == extraneous_upto(base, es, es.len() as int)
    &&& strictly_sorted(str_views(r.split_pairs@))
    &&& str_views(r.split_pairs@).to_set() == split_upto(base, es, es.len() as int)
    &&& r.pairs@.map_values(|p: AssetPair| pair_view(p)) == pairs_upto(base, es, es.len() as int)
}

/// The index of the last `.` in `name`.
fn last_dot_of(name: &str) -> (r: Option<usize>)
    ensures
        match r {
            Some(d) => last_dot(name@, name@.len() as int) == d as int && d < name@.len(),
            None => last_dot(name@, name@.len() as int) == -1,
        },
{
    let n = name.unicode_len();
    let mut i: usize = n;
    while i > 0
        invariant
            n == name@.len(),
            i <= n,
            last_dot(name@, n as int) == last_dot(name@, i as int),
        decreases i,
    {
        if name.get_char(i - 1) == '.' {
            return Some(i - 1);
        }
        i = i - 1;
    }
    None
}

/// The entry of a member path: its components, the extension split off.
pub fn entry_of(f: &str) -> (r: Entry)
    ensures
        entry_view(r) == entry_of_path(f@),
{
    let mut cs = components(f);
    let ghost c0 = str_views(cs@);
    let n = cs.len();
    assert(n > 0 ==> c0.last() == cs@[n - 1]@);
    if n > 0 && is_normal_exec(cs[n - 1].as_str()) {
        if let Some(d) = last_dot_of(cs[n - 1].as_str()) {
            if d > 0 {
                let last = cs.pop().unwrap();
                let len = last.as_str().unicode_len();
                let stem = String::from_str(last.as_str().substring_char(0, d));
                let ext = String::from_str(last.as_str().substring_char(d + 1, len));
                cs.push(stem);
                assert(str_views(cs@) =~= c0.drop_last().push(c0.last().subrange(0, d as int)));
                return Entry { parts: cs, extension: Some(ext) };
            }
        }
    }
    Entry { parts: cs, extension: None }
}

/// True when the two lists hold the same strings.
pub fn parts_eq(a: &Vec<String>, b: &Vec<String>) -> (r: bool)
    ensures
        r == (str_views(a@) == str_views(b@)),
{
    if a.len() != b.len() {
        return false;
    }
    let mut i: usize = 0;
    while i < a.len()
        invariant
            a@.len() == b@.len(),
            i <= a@.len(),
            forall|j: int| 0 <= j < i ==> #[trigger] a@[j]@ == b@[j]@,
        decreases a@.len() - i,
    {
        if !str_eq(a[i].as_str(), b[i].as_str()) {
            assert(str_views(a@)[i as int] != str_views(b@)[i as int]);
            return false;
        }
        i = i + 1;
    }
    assert(str_views(a@) =~= str_views(b@));
    true
}

/// True when some entry has the stem `stem` and the extension `x`.
fn has_ext_exec(es: &Vec<Entry>, stem: &Vec<String>, x: &str) -> (r: bool)
    ensures
        r == has_ext(entry_views(es@), str_views(stem@), x@),
{
    let ghost ev = entry_views(es@);
    let mut i: usize = 0;
    while i < es.len()
        invariant
            i <= es@.len(),
            ev == entry_views(es@),
            forall|j: int| 0 <= j < i ==> !((#[trigger] ev[j]).0 == str_views(stem@) && ev[j].1 == Some(x@)),
        decreases es@.len() - i,
    {
        assert(ev[i as int] == entry_view(es@[i as int]));
        if parts_eq(&es[i].parts, stem) {
            match &es[i].extension {
                Some(e) => {
                    if str_eq(e.as_str(), x) {
                        return true;
                    }
                },
                None => {},
            }
        }
        i = i + 1;
    }
    false
}

/// The strings of `a`, then those of `b`.
fn append_parts(a: &Vec<String>, b: &Vec<String>) -> (r: Vec<String>)
    ensures
        str_views(r@) == str_views(a@) + str_views(b@),
{
    let mut r = copy_strings(a);
    let mut i: usize = 0;
    while i < b.len()
        invariant
            i <= b@.len(),
            r@.len() == a@.len() + i,
            forall|j: int| 0 <= j < a@.len() ==> #[trigger] r@[j]@ == a@[j]@,
            forall|j: int| 0 <= j < i ==> #[trigger] r@[a@.len() + j]@ == b@[j]@,
        decreases b@.len() - i,
    {
        r.push(b[i].clone());
        i = i + 1;
    }
    assert forall|j: int| 0 <= j < r@.len() implies #[trigger] str_views(r@)[j] == (str_views(a@) + str_views(b@))[j] by {
        if j >= a@.len() {
            assert(r@[a@.len() + (j - a@.len())]@ == b@[j - a@.len()]@);
        }
    }
    assert(str_views(r@) =~= str_views(a@) + str_views(b@));
    r
}

/// `path` followed by `.` and the extension.
fn with_ext_exec(cs: &Vec<String>, x: &str) -> (r: String)
    ensures
        r@ == with_ext(str_views(cs@), x@),
{
    let p = join_parts(cs);
    proof { reveal_strlit("."); }
    let q = concat(p.as_str(), ".");
    concat(q.as_str(), x)
}

/// The path of an entry under the mount base.
fn display_exec(base: &Vec<String>, e: &Entry) -> (r: String)
    ensures
        r@ == display(str_views(base@), entry_view(*e)),
{
    let full = append_parts(base, &e.parts);
    match &e.extension {
        Some(x) => with_ext_exec(&full, x.as_str()),
        None => join_parts(&full),
    }
}

fn valid_extension_exec(x: &str) -> (r: bool)
    ensures
        r == valid_extension(x@),
{
    str_eq(x, "uasset") || str_eq(x, "uexp") || str_eq(x, "umap") || str_eq(x, "ubulk") || str_eq(x, "ufont")
        || str_eq(x, "ini") || str_eq(x, "locres")
}

/// Extraneous files, split pairs and complete pairs of the entries, with
/// `base` the mount point's base.
pub fn analyze(base: &Vec<String>, entries: &Vec<Entry>) -> (r: LintReport)
    ensures
        analysis_of(r, str_views(base@), entry_views(entries@)),
{
    let ghost b = str_views(base@);
    let ghost ev = entry_views(entries@);
    let mut extraneous: Vec<String> = Vec::new();
    let mut split_pairs: Vec<String> = Vec::new();
    let mut pairs: Vec<AssetPair> = Vec::new();
    proof { reveal_strlit("FSD/AssetRegistry.bin"); }
    assert(str_views(extraneous@).to_set() =~= Set::<Seq<char>>::empty());
    assert(str_views(split_pairs@).to_set() =~= Set::<Seq<char>>::empty());
    assert(pairs@.map_values(|p: AssetPair| pair_view(p)) =~= pairs_upto(b, ev, 0));
    let mut i: usize = 0;
    while i < entries.len()
        invariant
            i <= entries@.len(),
            b == str_views(base@),
            ev == entry_views(entries@),
            strictly_sorted(str_views(extraneous@)),
            str_views(extraneous@).to_set() == extraneous_upto(b, ev, i as int),
            strictly_sorted(str_views(split_pairs@)),
            str_views(split_pairs@).to_set() == split_upto(b, ev, i as int),
            pairs@.map_values(|p: AssetPair| pair_view(p)) == pairs_upto(b, ev, i as int),
        decreases entries@.len() - i,
    {
        let e = &entries[i];
        assert(ev[i as int] == entry_view(*e));
        let d = display_exec(base, e);
        let stray = match &e.extension {
            Some(x) => !valid_extension_exec(x.as_str()),
            None => true,
        };
        if stray && !str_eq(d.as_str(), "FSD/AssetRegistry.bin") {
            insert_sorted(&mut extraneous, d.as_str());
        }
        if let Some(x) = &e.extension {
            let with_uasset = has_ext_exec(entries, &e.parts, "uasset");
            let primary = with_uasset || has_ext_exec(entries, &e.parts, "umap");
            let export = has_ext_exec(entries, &e.parts, "uexp");
            if primary != export {
                insert_sorted(&mut split_pairs, d.as_str());
            }
            if str_eq(x.as_str(), "uexp") && primary {
                let member = if with_uasset {
                    with_ext_exec(&e.parts, "uasset")
                } else {
                    with_ext_exec(&e.parts, "umap")
                };
                let pair = AssetPair { stem: append_parts(base, &e.parts), member };
                let ghost before = pairs@;
                pairs.push(pair);
                assert(pairs@.map_values(|p: AssetPair| pair_view(p)) =~= before.map_values(
                    |p: AssetPair| pair_view(p),
                ).push(pair_view(pair)));
            }
        }
        i = i + 1;
    }
    LintReport { extraneous, split_pairs, pairs }
}

/// The entries of the member paths, in order.
pub fn entries_of(files: &Vec<String>) -> (r: Vec<Entry>)
    ensures
        entry_views(r@) == files@.map_values(|f: String| entry_of_path(f@)),
{
    let mut r: Vec<Entry> = Vec::new();
    let mut i: usize = 0;
    while i < files.len()
        invariant
            i <= files@.len(),
            entry_views(r@) == files@.map_values(|f: String| entry_of_path(f@)).take(i as int),
        decreases files@.len() - i,
    {
        let e = entry_of(files[i].as_str());
        let ghost before = r@;
        r.push(e);
        assert(entry_views(r@) =~= entry_views(before).push(entry_view(e)));
        assert(files@.map_values(|f: String| entry_of_path(f@)).take(i + 1) =~= files@.map_values(
            |f: String| entry_of_path(f@),
        ).take(i as int).push(entry_of_path(files@[i as int]@)));
        i = i + 1;
    }
    assert(files@.map_values(|f: String| entry_of_path(f@)).take(i as int) =~= files@.map_values(
        |f: String| entry_of_path(f@),
    ));
    r
}

/// Analyses a container from its mount point and member paths. Fails, with
/// nothing analysed, when the mount point does not start with `../../../`.
pub fn lint_container(mount_point: &str, files: &Vec<String>) -> (r: Result<LintReport, AuditError>)
    ensures
        match r {
            Ok(rep) => match mount_base(unix_components(mount_point@)) {
                Some(b) => analysis_of(rep, b, files@.map_values(|f: String| entry_of_path(f@))),
                None => false,
            },
            Err(AuditError::InvalidMountPoint(m)) => mount_base(unix_components(mount_point@)) is None
                && m@ == mount_point@,
        },
{
    let mount = components(mount_point);
    match mount_base_of(&mount) {
        Some(base) => {
            let entries = entries_of(files);
            Ok(analyze(&base, &entries))
        },
        None => Err(AuditError::InvalidMountPoint(String::from_str(mount_point))),
    }
}

/// The in-game paths of the first `i` members, each member's stem under the
/// mount base normalised; members without an in-game path are left out.
pub open spec fn owned_paths_upto(base: Seq<Seq<char>>, files: Seq<String>, i: int) -> Seq<Seq<char>>
    decreases i,
{
    if i <= 0 || i > files.len() {
        seq![]
    } else {
        match game_path(base + entry_of_path(files[i - 1]@).0) {
            Some(g) => owned_paths_upto(base, files, i - 1).push(g),
            None => owned_paths_upto(base, files, i - 1),
        }
    }
}

/// The in-game paths a container touches: each member's stem under the
/// mount base, normalised, in order; members without an in-game path are
/// left out. Fails when the mount point does not start with `../../../`.
pub fn container_paths(mount_point: &str, files: &Vec<String>) -> (r: Result<Vec<String>, AuditError>)
    ensures
        match r {
            Ok(v) => match mount_base(unix_components(mount_point@)) {
                Some(b) => str_views(v@) == owned_paths_upto(b, files@, files@.len() as int),
                None => false,
            },
            Err(AuditError::InvalidMountPoint(m)) => mount_base(unix_components(mount_point@)) is None
                && m@ == mount_point@,
        },
{
    let mount = components(mount_point);
    let base = match mount_base_of(&mount) {
        Some(b) => b,
        None => {
            return Err(AuditError::InvalidMountPoint(String::from_str(mount_point)));
        },
    };
    let ghost b = str_views(base@);
    let mut r: Vec<String> = Vec::new();
    let mut i: usize = 0;
    while i < files.len()
        invariant
            i <= files@.len(),
            b == str_views(base@),
            mount_base(unix_components(mount_point@)) == Some(b),
            str_views(r@) == owned_paths_upto(b, files@, i as int),
        decreases files@.len() - i,
    {
        let e = entry_of(files[i].as_str());
        let full = append_parts(&base, &e.parts);
        let ghost before = r@;
        match game_path_of(&full) {
            Some(g) => {
                r.push(g);
                assert(str_views(r@) =~= str_views(before).push(g@));
            },
            None => {},
        }
        i = i + 1;
    }
    Ok(r)
}

proof fn lemma_extraneous_upto(base: Seq<Seq<char>>, es: Seq<EntryView>, n: int, x: Seq<char>)
    requires
        0 <= n <= es.len(),
    ensures
        extraneous_upto(base, es, n).contains(x) <==> exists|i: int|
            0 <= i < n && is_extraneous(base, #[trigger] es[i]) && display(base, es[i]) == x,
    decreases n,
{
    if n > 0 {
        lemma_extraneous_upto(base, es, n - 1, x);
    }
}

proof fn lemma_split_upto(base: Seq<Seq<char>>, es: Seq<EntryView>, n: int, x: Seq<char>)
    requires
        0 <= n <= es.len(),
    ensures
        split_upto(base, es, n).contains(x) <==> exists|i: int|
            0 <= i < n && (#[trigger] es[i]).1 is Some && is_split(es, es[i].0) && display(base, es[i]) == x,
    decreases n,
{
    if n > 0 {
        lemma_split_upto(base, es, n - 1, x);
    }
}

/// A file with a missing or disallowed extension is reported as extraneous
/// exactly when its path is not the exempted one.
pub proof fn lemma_extraneous_rule(r: LintReport, base: Seq<Seq<char>>, es: Seq<EntryView>, i: int)
    requires
        analysis_of(r, base, es),
        0 <= i < es.len(),
        match es[i].1 {
            Some(x) => !valid_extension(x),
            None => true,
        },
    ensures
        str_views(r.extraneous@).contains(display(base, es[i])) <==> display(base, es[i]) != exempt_path(),
{
    let d = display(base, es[i]);
    lemma_extraneous_upto(base, es, es.len() as int, d);
    assert(str_views(r.extraneous@).contains(d) == str_views(r.extraneous@).to_set().contains(d));
    if d != exempt_path() {
        assert(is_extraneous(base, es[i]));
    }
}

/// Every extension of a stem with only one half of the pair is reported as
/// a split pair; a stem with both halves contributes no split pair.
proof fn lemma_pairs_upto(base: Seq<Seq<char>>, es: Seq<EntryView>, n: int, j: int)
    requires
        0 <= j < n <= es.len(),
        completes_pair(es, es[j]),
    ensures
        pairs_upto(base, es, n).contains((base + es[j].0, primary_member(es, es[j].0))),
    decreases n,
{
    if j < n - 1 {
        lemma_pairs_upto(base, es, n - 1, j);
        let prev = pairs_upto(base, es, n - 1);
        let k = choose|k: int| 0 <= k < prev.len() && prev[k] == (base + es[j].0, primary_member(es, es[j].0));
        if completes_pair(es, es[n - 1]) {
            assert(pairs_upto(base, es, n)[k] == prev[k]);
        }
    } else {
        let cur = pairs_upto(base, es, n);
        assert(cur[cur.len() - 1] == (base + es[j].0, primary_member(es, es[j].0)));
    }
}

/// A stem with both halves of the pair is a complete pair, listed once for
/// each of its export entries; no entry of a split stem gives a pair.
pub proof fn lemma_complete_pair_rule(r: LintReport, base: Seq<Seq<char>>, es: Seq<EntryView>, i: int)
    requires
        analysis_of(r, base, es),
        0 <= i < es.len(),
    ensures
        is_split(es, es[i].0) ==> forall|j: int| 0 <= j < es.len() && (#[trigger] es[j]).0 == es[i].0
            ==> !completes_pair(es, es[j]),
        (has_primary(es, es[i].0) && es[i].1 == Some("uexp"@)) ==> r.pairs@.map_values(
            |p: AssetPair| pair_view(p),
        ).contains((base + es[i].0, primary_member(es, es[i].0))),
{
    if has_primary(es, es[i].0) && es[i].1 == Some("uexp"@) {
        lemma_pairs_upto(base, es, es.len() as int, i);
    }
}

pub proof fn lemma_split_pair_rule(r: LintReport, base: Seq<Seq<char>>, es: Seq<EntryView>, i: int)
    requires
        analysis_of(r, base, es),
        0 <= i < es.len(),
        es[i].1 is Some,
    ensures
        is_split(es, es[i].0) ==> str_views(r.split_pairs@).contains(display(base, es[i])),
        !is_split(es, es[i].0) ==> forall|x: Seq<char>| #[trigger] str_views(r.split_pairs@).contains(x)
            ==> exists|j: int| 0 <= j < es.len() && (#[trigger] es[j]).1 is Some && is_split(es, es[j].0)
                && es[j].0 != es[i].0 && display(base, es[j]) == x,
{
    let d = display(base, es[i]);
    lemma_split_upto(base, es, es.len() as int, d);
    assert(str_views(r.split_pairs@).contains(d) == str_views(r.split_pairs@).to_set().contains(d));
    if !is_split(es, es[i].0) {
        assert forall|x: Seq<char>| #[trigger] str_views(r.split_pairs@).contains(x)
            implies exists|j: int| 0 <= j < es.len() && (#[trigger] es[j]).1 is Some && is_split(es, es[j].0)
                && es[j].0 != es[i].0 && display(base, es[j]) == x by {
            assert(str_views(r.split_pairs@).to_set().contains(x));
            lemma_split_upto(base, es, es.len() as int, x);
        }
    }
}

} // verus!
