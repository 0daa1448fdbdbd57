//! The auto-verification table: each asset's class against an allow-list
//! of classes, in a fixed order.
use vstd::prelude::*;
use vstd::string::*;
use crate::order::{lemma_lt_asymmetric, lemma_lt_irreflexive, lemma_lt_transitive};
use crate::text::{seq_lt, str_eq, str_lt};

verus! {

/// How far an asset can be approved without a person looking at it.
#[derive(PartialEq, Eq, Structural, Clone, Copy, Debug, PartialOrd, Ord)]
pub enum AutoVerify {
    Pass,
    Fail,
    Unknown,
}

/// An asset's class, or the reason its class could not be read.
#[derive(Debug, PartialEq, Eq, PartialOrd, Ord)]
pub enum AssetType {
    Known(String),
    Unknown(String),
}

/// One row of the table.
#[derive(Debug)]
pub struct VerificationRow {
    pub tier: AutoVerify,
    pub class: AssetType,
    pub path: String,
}

pub open spec fn rank(t: AutoVerify) -> int {
    match t {
        AutoVerify::Pass => 0,
        AutoVerify::Fail => 1,
        AutoVerify::Unknown => 2,
    }
}

/// The classes whose assets pass without review.
pub open spec fn allow_listed(c: Seq<char>) -> bool {
    c == "SoundWave"@ || c == "SoundCue"@ || c == "SoundClass"@ || c == "SoundMix"@
        || c == "MaterialInstanceConstant"@ || c == "Material"@ || c == "SkeletalMesh"@
        || c == "StaticMesh"@ || c == "Texture2D"@ || c == "AnimSequence"@ || c == "Skeleton"@
        || c == "StringTable"@
}

/// The tier of an asset whose class was read (`Ok`) or not (`Err`).
pub open spec fn tier_of(class: Result<Seq<char>, Seq<char>>) -> AutoVerify {
    match class {
        Ok(c) => if allow_listed(c) { AutoVerify::Pass } else { AutoVerify::Fail },
        Err(_) => AutoVerify::Unknown,
    }
}

pub open spec fn result_view(r: Result<String, String>) -> Result<Seq<char>, Seq<char>> {
    match r {
        Ok(c) => Ok(c@),
        Err(e) => Err(e@),
    }
}

/// A row as values: tier, whether the class is known, its text, the path.
pub type RowView = (AutoVerify, bool, Seq<char>, Seq<char>);

pub open spec fn row_view(r: VerificationRow) -> RowView {
    match r.class {
        AssetType::Known(c) => (r.tier, true, c@, r.path@),
        AssetType::Unknown(e) => (r.tier, false, e@, r.path@),
    }
}

/// The row of an asset's path and class.
pub open spec fn expected_row(a: (String, Result<String, String>)) -> RowView {
    match a.1 {
        Ok(c) => (tier_of(result_view(a.1)), true, c@, a.0@),
        Err(e) => (tier_of(result_view(a.1)), false, e@, a.0@),
    }
}

/// Rows order by tier, then known classes before errors, then the class or
/// error text, then the path.
pub open spec fn row_lt(a: RowView, b: RowView) -> bool {
    rank(a.0) < rank(b.0) || (rank(a.0) == rank(b.0) && (
        (a.1 && !b.1) || (a.1 == b.1 && (seq_lt(a.2, b.2) || (a.2 == b.2 && seq_lt(a.3, b.3))))))
}

pub open spec fn rows_sorted(s: Seq<RowView>) -> bool {
    forall|i: int, j: int| 0 <= i < j < s.len() ==> !row_lt(#[trigger] s[j], #[trigger] s[i])
}

pub open spec fn rows_view(rows: Seq<VerificationRow>) -> Seq<RowView> {
    rows.map_values(|r: VerificationRow| row_view(r))
}

proof fn lemma_row_lt_transitive(a: RowView, b: RowView, c: RowView)
    requires
        row_lt(a, b),
        row_lt(b, c),
    ensures
        row_lt(a, c),
{
    if rank(a.0) == rank(b.0) && rank(b.0) == rank(c.0) && a.1 == b.1 && b.1 == c.1 {
        if seq_lt(a.2, b.2) && seq_lt(b.2, c.2) {
            lemma_lt_transitive(a.2, b.2, c.2);
        } else if a.2 == b.2 && b.2 == c.2 {
            lemma_lt_transitive(a.3, b.3, c.3);
        }
    }
}

proof fn lemma_row_lt_asymmetric(a: RowView, b: RowView)
    ensures
        !(row_lt(a, b) && row_lt(b, a)),
{
    lemma_lt_asymmetric(a.2, b.2);
    lemma_lt_asymmetric(a.3, b.3);
    lemma_lt_irreflexive(a.2);
    lemma_lt_irreflexive(a.3);
}

/// Pass < Fail < Unknown is a strict total order on tiers; an allow-listed
/// class is Pass, any other class Fail, and a failed read Unknown.
pub proof fn lemma_tier_order(a: AutoVerify, b: AutoVerify, c: Seq<char>, e: Seq<char>)
    ensures
        rank(AutoVerify::Pass) < rank(AutoVerify::Fail) < rank(AutoVerify::Unknown),
        rank(a) < rank(b) || a == b || rank(b) < rank(a),
        !(rank(a) < rank(b) && rank(b) < rank(a)),
        allow_listed(c) ==> tier_of(Ok(c)) == AutoVerify::Pass,
        !allow_listed(c) ==> tier_of(Ok(c)) == AutoVerify::Fail,
        tier_of(Err(e)) == AutoVerify::Unknown,
{
}

/// In a sorted table every Pass row comes before every Fail row, and every
/// Fail row before every Unknown row.
pub proof fn lemma_tiers_in_order(rows: Seq<RowView>, i: int, j: int)
    requires
        rows_sorted(rows),
        0 <= i < j < rows.len(),
    ensures
        rank(rows[i].0) <= rank(rows[j].0),
{
    assert(!row_lt(rows[j], rows[i]));
}

impl AutoVerify {
    /// The word shown for the tier.
    pub fn output(&self) -> (r: &'static str)
        ensures
            r@ == (match *self {
                AutoVerify::Pass => "yes"@,
                AutoVerify::Fail => "no"@,
                AutoVerify::Unknown => "?"@,
            }),
    {
        match self {
            AutoVerify::Pass => "yes",
            AutoVerify::Fail => "no",
            AutoVerify::Unknown => "?",
        }
    }
}

impl AssetType {
    /// The class, or the reason it is unknown.
    pub fn output(&self) -> (r: &str)
        ensures
            r@ == (match *self {
                AssetType::Known(s) => s@,
                AssetType::Unknown(s) => s@,
            }),
    {
        match self {
            AssetType::Known(s) => s.as_str(),
            AssetType::Unknown(s) => s.as_str(),
        }
    }
}

/// True when the class is on the allow-list.
pub fn is_allow_listed(c: &str) -> (r: bool)
    ensures
        r == allow_listed(c@),
{
    str_eq(c, "SoundWave") || str_eq(c, "SoundCue") || str_eq(c, "SoundClass") || str_eq(c, "SoundMix")
        || str_eq(c, "MaterialInstanceConstant") || str_eq(c, "Material") || str_eq(c, "SkeletalMesh")
        || str_eq(c, "StaticMesh") || str_eq(c, "Texture2D") || str_eq(c, "AnimSequence")
        || str_eq(c, "Skeleton") || str_eq(c, "StringTable")
}

/// The tier of an asset whose class was read (`Ok`) or could not be (`Err`).
pub fn classify(class: &Result<String, String>) -> (r: AutoVerify)
    ensures
        r == tier_of(result_view(*class)),
{
    match class {
        Ok(c) => if is_allow_listed(c.as_str()) { AutoVerify::Pass } else { AutoVerify::Fail },
        Err(_) => AutoVerify::Unknown,
    }
}

fn rank_exec(t: AutoVerify) -> (r: u8)
    ensures
        r as int == rank(t),
{
    match t {
        AutoVerify::Pass => 0,
        AutoVerify::Fail => 1,
        AutoVerify::Unknown => 2,
    }
}

fn row_lt_exec(a: &VerificationRow, b: &VerificationRow) -> (r: bool)
    ensures
        r == row_lt(row_view(*a), row_view(*b)),
{
    let ra = rank_exec(a.tier);
    let rb = rank_exec(b.tier);
    if ra != rb {
        return ra < rb;
    }
    let (ka, ta) = match &a.class {
        AssetType::Known(s) => (true, s.as_str()),
        AssetType::Unknown(s) => (false, s.as_str()),
    };
    let (kb, tb) = match &b.class {
        AssetType::Known(s) => (true, s.as_str()),
        AssetType::Unknown(s) => (false, s.as_str()),
    };
    if ka != kb {
        return ka;
    }
    if str_lt(ta, tb) {
        return true;
    }
    if !str_eq(ta, tb) {
        return false;
    }
    str_lt(a.path.as_str(), b.path.as_str())
}

/// A row whose class is known exactly when its tier is not Unknown.
pub open spec fn consistent(v: RowView) -> bool {
    v.1 == (v.0 != AutoVerify::Unknown)
}

pub open spec fn all_consistent(s: Seq<RowView>) -> bool {
    forall|i: int| 0 <= i < s.len() ==> consistent(#[trigger] s[i])
}

/// The table's order as the report states it: by tier, then by class or
/// error text, then by path.
pub open spec fn table_lt(a: RowView, b: RowView) -> bool {
    rank(a.0) < rank(b.0) || (rank(a.0) == rank(b.0) && (seq_lt(a.2, b.2) || (a.2 == b.2 && seq_lt(a.3, b.3))))
}

/// A sorted table of consistent rows is ascending by (tier, class or error
/// text, path): no row comes after a later one in that order.
pub proof fn lemma_table_order(rows: Seq<RowView>, i: int, j: int)
    requires
        rows_sorted(rows),
        all_consistent(rows),
        0 <= i < j < rows.len(),
    ensures
        !table_lt(rows[j], rows[i]),
        rank(rows[i].0) <= rank(rows[j].0),
{
    assert(!row_lt(rows[j], rows[i]));
    assert(consistent(rows[i]) && consistent(rows[j]));
}

/// Inserts a row into a sorted table, after the rows that do not come
/// after it.
fn insert_row(rows: &mut Vec<VerificationRow>, row: VerificationRow)
    requires
        rows_sorted(rows_view(old(rows)@)),
        all_consistent(rows_view(old(rows)@)),
        consistent(row_view(row)),
    ensures
        rows_sorted(rows_view(final(rows)@)),
        all_consistent(rows_view(final(rows)@)),
        rows_view(final(rows)@).to_multiset() == rows_view(old(rows)@).to_multiset().insert(row_view(row)),
{
    let ghost rv = rows_view(rows@);
    let n = rows.len();
    let mut p: usize = 0;
    while p < n && !row_lt_exec(&row, &rows[p])
        invariant
            n == rows@.len(),
            rv == rows_view(rows@),
            p <= n,
            forall|q: int| 0 <= q < p ==> !row_lt(row_view(row), #[trigger] rv[q]),
        decreases n - p,
    {
        p = p + 1;
    }
    assert(p < n ==> rv[p as int] == row_view(rows@[p as int]));
    let ghost x = row_view(row);
    rows.insert(p, row);
    let ghost nv = rows_view(rows@);
    assert(nv =~= rv.insert(p as int, x));
    assert forall|a: int, b: int| 0 <= a < b < nv.len() implies !row_lt(#[trigger] nv[b], #[trigger] nv[a]) by {
        if a < p && b == p {
        } else if a == p && b > p {
            if row_lt(nv[b], x) {
                if b - 1 == p {
                    lemma_row_lt_asymmetric(rv[p as int], x);
                } else {
                    lemma_row_lt_transitive(rv[b - 1], x, rv[p as int]);
                }
            }
        } else if a < p && b > p {
            assert(!row_lt(rv[b - 1], rv[a]));
        } else if a > p {
            assert(!row_lt(rv[b - 1], rv[a - 1]));
        } else {
            assert(!row_lt(rv[b], rv[a]));
        }
    }
    assert forall|a: int| 0 <= a < nv.len() implies consistent(#[trigger] nv[a]) by {
        if a < p {
            assert(nv[a] == rv[a]);
        } else if a > p {
            assert(nv[a] == rv[a - 1]);
        }
    }
    proof {
        vstd::seq_lib::to_multiset_insert(rv, p as int, x);
    }
}

/// No later asset has the same path: this one is the path's entry, as in a
/// map where a later insert replaces an earlier one.
pub open spec fn last_for_path(assets: Seq<(String, Result<String, String>)>, i: int) -> bool {
    forall|j: int| i < j < assets.len() ==> (#[trigger] assets[j]).0@ != assets[i].0@
}

/// The expected rows of the first `i` assets that are their path's entry.
pub open spec fn kept_rows(assets: Seq<(String, Result<String, String>)>, i: int) -> Seq<RowView>
    decreases i,
{
    if i <= 0 || i > assets.len() {
        seq![]
    } else if last_for_path(assets, i - 1) {
        kept_rows(assets, i - 1).push(expected_row(assets[i - 1]))
    } else {
        kept_rows(assets, i - 1)
    }
}

/// True when no asset after the `i`-th has its path.
fn is_last_for_path(assets: &Vec<(String, Result<String, String>)>, i: usize) -> (r: bool)
    requires
        i < assets@.len(),
    ensures
        r == last_for_path(assets@, i as int),
{
    let n = assets.len();
    let mut j: usize = i + 1;
    while j < n
        invariant
            n == assets@.len(),
            i < j <= n,
            forall|q: int| i < q < j ==> (#[trigger] assets@[q]).0@ != assets@[i as int].0@,
        decreases assets@.len() - j,
    {
        if str_eq(assets[j].0.as_str(), assets[i].0.as_str()) {
            return false;
        }
        j = j + 1;
    }
    true
}

/// The table for the assets, each given by its path and its class or the
/// reason its class could not be read: one row per path, the last entry for
/// a path standing for it, in order.
pub fn verification_rows(assets: &Vec<(String, Result<String, String>)>) -> (r: Vec<VerificationRow>)
    ensures
        rows_sorted(rows_view(r@)),
        all_consistent(rows_view(r@)),
        rows_view(r@).to_multiset() == kept_rows(assets@, assets@.len() as int).to_multiset(),
{
    let mut rows: Vec<VerificationRow> = Vec::new();
    let mut i: usize = 0;
    assert(rows_view(rows@) =~= kept_rows(assets@, 0));
    while i < assets.len()
        invariant
            i <= assets@.len(),
            rows_sorted(rows_view(rows@)),
            all_consistent(rows_view(rows@)),
            rows_view(rows@).to_multiset() == kept_rows(assets@, i as int).to_multiset(),
        decreases assets@.len() - i,
    {
        if is_last_for_path(assets, i) {
            let (path, class) = &assets[i];
            let tier = classify(class);
            let text = match class {
                Ok(c) => AssetType::Known(String::from_str(c.as_str())),
                Err(e) => AssetType::Unknown(String::from_str(e.as_str())),
            };
            let row = VerificationRow { tier, class: text, path: String::from_str(path.as_str()) };
            assert(row_view(row) == expected_row(assets@[i as int]));
            insert_row(&mut rows, row);
            proof {
                vstd::seq_lib::to_multiset_build(kept_rows(assets@, i as int), expected_row(assets@[i as int]));
            }
        }
        i = i + 1;
    }
    rows
}

} // verus!
