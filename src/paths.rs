//! Container paths: their components, the mount point's base, and the
//! in-game path that a member path stands for.
use vstd::prelude::*;
use vstd::string::*;
use typed_path::{Utf8Component, Utf8UnixPath};
use crate::hierarchy::str_views;
use crate::text::{concat, str_eq};

verus! {

/// The pieces of `s` between `/` characters (one more than there are `/`).
pub open spec fn slash_pieces(s: Seq<char>) -> Seq<Seq<char>>
    decreases s.len(),
{
    if s.len() == 0 {
        seq![seq![]]
    } else {
        let rest = slash_pieces(s.drop_last());
        if s.last() == '/' {
            rest.push(seq![])
        } else {
            rest.update(rest.len() - 1, rest.last().push(s.last()))
        }
    }
}

/// The pieces that name something: not empty, not `.`.
pub open spec fn named_pieces(ps: Seq<Seq<char>>) -> Seq<Seq<char>>
    decreases ps.len(),
{
    if ps.len() == 0 {
        seq![]
    } else if ps.last().len() > 0 && ps.last() != seq!['.'] {
        named_pieces(ps.drop_last()).push(ps.last())
    } else {
        named_pieces(ps.drop_last())
    }
}

/// The components of a Unix path, each as its text: a leading `/` is a
/// component of its own, a leading `.` piece stays, and otherwise the
/// pieces between `/` that are empty or `.` are dropped.
pub open spec fn unix_components(s: Seq<char>) -> Seq<Seq<char>> {
    let ps = slash_pieces(s);
    if s.len() > 0 && s[0] == '/' {
        seq![seq!['/']] + named_pieces(ps.drop_first())
    } else if ps[0] == seq!['.'] {
        seq![seq!['.']] + named_pieces(ps.drop_first())
    } else {
        named_pieces(ps)
    }
}

/// Relies on typed_path's `Utf8UnixPath::components` and `Utf8Component::as_str`:
/// the components of a Unix path, in order ("/" for the root, "." for a
/// leading current directory, ".." for a parent directory, otherwise the
/// name), repeated separators, trailing separators and other `.` pieces
/// being dropped.
#[verifier::external_body]
fn path_components(s: &str) -> (r: Vec<String>)
    ensures
        str_views(r@) == unix_components(s@),
{
    Utf8UnixPath::new(s).components().map(|c| c.as_str().to_string()).collect()
}

/// A component that names a file or directory.
pub open spec fn is_normal(c: Seq<char>) -> bool {
    c != "/"@ && c != "."@ && c != ".."@
}

/// The components joined by `/`.
pub open spec fn joined(cs: Seq<Seq<char>>) -> Seq<char>
    decreases cs.len(),
{
    if cs.len() == 0 {
        seq![]
    } else if cs.len() == 1 {
        cs[0]
    } else {
        joined(cs.drop_last()) + seq!['/'] + cs.last()
    }
}

/// `root` followed by each of `rest`, each after a `/`.
pub open spec fn joined_under(root: Seq<char>, rest: Seq<Seq<char>>) -> Seq<char>
    decreases rest.len(),
{
    if rest.len() == 0 {
        root
    } else {
        joined_under(root, rest.drop_last()) + seq!['/'] + rest.last()
    }
}

/// The members' base: the mount point's components after the mandatory
/// three parent-directory components.
pub open spec fn mount_base(cs: Seq<Seq<char>>) -> Option<Seq<Seq<char>>> {
    if cs.len() >= 3 && cs[0] == ".."@ && cs[1] == ".."@ && cs[2] == ".."@ {
        Some(cs.skip(3))
    } else {
        None
    }
}

/// A plugin path from component `i` on: the last name before the first
/// `Content` is the plugin; the rest goes under it.
pub open spec fn plugin_path(cs: Seq<Seq<char>>, i: int, last: Option<Seq<char>>) -> Option<Seq<char>>
    decreases cs.len() - i,
{
    if i < 0 || i >= cs.len() {
        None
    } else if cs[i] == "Content"@ {
        match last {
            Some(p) => Some(joined_under(seq!['/'] + p, cs.skip(i + 1))),
            None => None,
        }
    } else if is_normal(cs[i]) {
        plugin_path(cs, i + 1, Some(cs[i]))
    } else {
        None
    }
}

/// The in-game path of a member path's components: `Engine/Content/..`
/// under `/Engine`, `Engine/Plugins/../<name>/Content/..` under `/<name>`,
/// `<project>/Content/..` under `/Game`; no other shape has one.
pub open spec fn game_path(cs: Seq<Seq<char>>) -> Option<Seq<char>> {
    if cs.len() >= 1 && cs[0] == "Engine"@ {
        if cs.len() >= 2 && cs[1] == "Content"@ {
            Some(joined_under("/Engine"@, cs.skip(2)))
        } else if cs.len() >= 2 && cs[1] == "Plugins"@ {
            plugin_path(cs, 2, None)
        } else {
            None
        }
    } else if cs.len() >= 1 && is_normal(cs[0]) {
        if cs.len() >= 2 && cs[1] == "Content"@ {
            Some(joined_under("/Game"@, cs.skip(2)))
        } else {
            None
        }
    } else {
        None
    }
}

/// The components of a path.
pub fn components(s: &str) -> (r: Vec<String>)
    ensures
        str_views(r@) == unix_components(s@),
{
    path_components(s)
}

/// An owned copy of a list of strings.
pub fn copy_strings(v: &Vec<String>) -> (r: Vec<String>)
    ensures
        str_views(r@) == str_views(v@),
        r@.len() == v@.len(),
        forall|j: int| 0 <= j < r@.len() ==> #[trigger] r@[j]@ == v@[j]@,
{
    let r = skip_strings(v, 0);
    assert(str_views(v@).skip(0) =~= str_views(v@));
    r
}

/// The components of `v` from index `from` on.
fn skip_strings(v: &Vec<String>, from: usize) -> (r: Vec<String>)
    requires
        from <= v@.len(),
    ensures
        str_views(r@) == str_views(v@).skip(from as int),
        r@.len() == v@.len() - from,
        forall|j: int| 0 <= j < r@.len() ==> #[trigger] r@[j]@ == v@[from + j]@,
{
    let mut r: Vec<String> = Vec::new();
    let mut i: usize = from;
    while i < v.len()
        invariant
            from <= i <= v@.len(),
            r@.len() == i - from,
            forall|j: int| 0 <= j < r@.len() ==> #[trigger] r@[j]@ == v@[from + j]@,
        decreases v@.len() - i,
    {
        r.push(v[i].clone());
        i = i + 1;
    }
    assert forall|j: int| 0 <= j < r@.len() implies #[trigger] str_views(r@)[j] == str_views(v@).skip(from as int)[j] by {
        assert(r@[j]@ == v@[from + j]@);
    }
    assert(str_views(r@) =~= str_views(v@).skip(from as int));
    r
}

/// The components joined by `/`.
pub fn join_parts(cs: &Vec<String>) -> (r: String)
    ensures
        r@ == joined(str_views(cs@)),
{
    let mut r = String::new();
    let mut i: usize = 0;
    proof { reveal_strlit("/"); }
    while i < cs.len()
        invariant
            i <= cs@.len(),
            r@ == joined(str_views(cs@).take(i as int)),
            "/"@ == seq!['/'],
        decreases cs@.len() - i,
    {
        if i > 0 {
            r.append("/");
        }
        r.append(cs[i].as_str());
        assert(str_views(cs@).take(i + 1).drop_last() =~= str_views(cs@).take(i as int));
        i = i + 1;
    }
    assert(str_views(cs@).take(i as int) =~= str_views(cs@));
    r
}

/// `root` followed by each of `rest` from index `from` on, each after a `/`.
fn join_under(root: &str, rest: &Vec<String>, from: usize) -> (r: String)
    requires
        from <= rest@.len(),
    ensures
        r@ == joined_under(root@, str_views(rest@).skip(from as int)),
{
    let mut r = String::from_str(root);
    proof { reveal_strlit("/"); }
    let mut i: usize = from;
    while i < rest.len()
        invariant
            from <= i <= rest@.len(),
            r@ == joined_under(root@, str_views(rest@).subrange(from as int, i as int)),
            "/"@ == seq!['/'],
        decreases rest@.len() - i,
    {
        r.append("/");
        r.append(rest[i].as_str());
        assert(str_views(rest@).subrange(from as int, i + 1).drop_last()
            =~= str_views(rest@).subrange(from as int, i as int));
        i = i + 1;
    }
    assert(str_views(rest@).subrange(from as int, i as int) =~= str_views(rest@).skip(from as int));
    r
}

pub fn is_normal_exec(c: &str) -> (r: bool)
    ensures
        r == is_normal(c@),
{
    !str_eq(c, "/") && !str_eq(c, ".") && !str_eq(c, "..")
}

/// The base under which a container's members lie, from the components of
/// its mount point; `None` when the mount point does not start `../../../`.
pub fn mount_base_of(mount: &Vec<String>) -> (r: Option<Vec<String>>)
    ensures
        match r {
            Some(b) => mount_base(str_views(mount@)) == Some(str_views(b@)),
            None => mount_base(str_views(mount@)) is None,
        },
{
    if mount.len() >= 3 && str_eq(mount[0].as_str(), "..") && str_eq(mount[1].as_str(), "..")
        && str_eq(mount[2].as_str(), "..") {
        Some(skip_strings(mount, 3))
    } else {
        None
    }
}

/// The in-game path of a member path given by its components.
pub fn game_path_of(cs: &Vec<String>) -> (r: Option<String>)
    ensures
        match r {
            Some(g) => game_path(str_views(cs@)) == Some(g@),
            None => game_path(str_views(cs@)) is None,
        },
{
    let n = cs.len();
    assert(n >= 2 ==> str_views(cs@)[0] == cs@[0]@ && str_views(cs@)[1] == cs@[1]@);
    assert(n >= 1 ==> str_views(cs@)[0] == cs@[0]@);
    if n >= 1 && str_eq(cs[0].as_str(), "Engine") {
        if n >= 2 && str_eq(cs[1].as_str(), "Content") {
            let g = join_under("/Engine", cs, 2);
            assert(game_path(str_views(cs@)) == Some(g@));
            Some(g)
        } else if n >= 2 && str_eq(cs[1].as_str(), "Plugins") {
            let mut i: usize = 2;
            let mut last: Option<usize> = None;
            while i < n
                invariant
                    n == cs@.len(),
                    2 <= i <= n,
                    match last {
                        Some(q) => q < n,
                        None => true,
                    },
                    game_path(str_views(cs@)) == plugin_path(
                        str_views(cs@),
                        i as int,
                        match last {
                            Some(q) => Some(cs@[q as int]@),
                            None => None,
                        },
                    ),
                decreases n - i,
            {
                assert(str_views(cs@)[i as int] == cs@[i as int]@);
                if str_eq(cs[i].as_str(), "Content") {
                    match last {
                        Some(q) => {
                            proof { reveal_strlit("/"); }
                            let root = concat("/", cs[q].as_str());
                            let g = join_under(root.as_str(), cs, i + 1);
                            assert(root@ == seq!['/'] + cs@[q as int]@);
                            assert(plugin_path(str_views(cs@), i as int, Some(cs@[q as int]@)) == Some(g@));
                            return Some(g);
                        },
                        None => {
                            return None;
                        },
                    }
                } else if is_normal_exec(cs[i].as_str()) {
                    last = Some(i);
                } else {
                    return None;
                }
                i = i + 1;
            }
            None
        } else {
            None
        }
    } else if n >= 1 && is_normal_exec(cs[0].as_str()) {
        if n >= 2 && str_eq(cs[1].as_str(), "Content") {
            let g = join_under("/Game", cs, 2);
            assert(game_path(str_views(cs@)) == Some(g@));
            Some(g)
        } else {
            None
        }
    } else {
        None
    }
}

/// The in-game path of a path inside the container, below the mount base.
pub fn pak_path_to_game_path(pak_path: &str) -> (r: Option<String>)
    ensures
        match r {
            Some(g) => game_path(unix_components(pak_path@)) == Some(g@),
            None => game_path(unix_components(pak_path@)) is None,
        },
{
    let cs = components(pak_path);
    game_path_of(&cs)
}

} // verus!
