//! An immutable snapshot of the served filesystem subtree.
//!
//! The surrounding binary takes the snapshot (names, kinds, sizes,
//! modification times, file contents) and hands it to the pipeline as
//! plain values; every request works on its own snapshot and nothing
//! persists across requests.

use vstd::prelude::*;
use crate::entry::spec_is_hidden;

verus! {

/// A named child of a directory.
pub struct DirChild {
    pub name: Vec<u8>,
    pub tree: FsTree,
}

/// A filesystem entry: a regular file with its contents, or a
/// directory with its children in the order the snapshot listed them.
/// `mtime` is the last-modification time in seconds.
pub enum FsTree {
    File { mtime: u64, data: Vec<u8> },
    Dir { mtime: u64, children: Vec<DirChild> },
}

/// A snapshot is well formed when every directory's children carry
/// pairwise distinct names, as a real directory does.
pub open spec fn tree_wf(t: FsTree) -> bool
    decreases t, 1int,
{
    match t {
        FsTree::File { .. } => true,
        FsTree::Dir { children, .. } => {
            &&& forall|i: int, j: int|
                0 <= i < j < children@.len() ==> children@[i].name@ != children@[j].name@
            &&& children_wf(children@)
        },
    }
}

/// Every tree of `cs` is well formed.
pub open spec fn children_wf(cs: Seq<DirChild>) -> bool
    decreases cs, 0int,
{
    cs.len() == 0 || (tree_wf(cs[0].tree) && children_wf(cs.drop_first()))
}

/// The first child of `cs` named `name`, if any.
pub open spec fn find_child(cs: Seq<DirChild>, name: Seq<u8>) -> Option<DirChild>
    decreases cs,
{
    if cs.len() == 0 {
        None
    } else if cs[0].name@ == name {
        Some(cs[0])
    } else {
        find_child(cs.drop_first(), name)
    }
}

/// The subtree of `t` at the relative path `path`, if the path names
/// an existing entry; descending into a file fails.
pub open spec fn spec_lookup(t: FsTree, path: Seq<Seq<u8>>) -> Option<FsTree>
    decreases path.len(),
{
    if path.len() == 0 {
        Some(t)
    } else {
        match t {
            FsTree::File { .. } => None,
            FsTree::Dir { children, .. } => match find_child(children@, path[0]) {
                None => None,
                Some(c) => spec_lookup(c.tree, path.drop_first()),
            },
        }
    }
}

/// The subtree at `path` under a directory with children `cs`; the
/// empty path names no child.
pub open spec fn lookup_children(cs: Seq<DirChild>, path: Seq<Seq<u8>>) -> Option<FsTree> {
    if path.len() == 0 {
        None
    } else {
        match find_child(cs, path[0]) {
            None => None,
            Some(c) => spec_lookup(c.tree, path.drop_first()),
        }
    }
}

/// No component of `path` is hidden; a hidden directory hides its
/// whole subtree, so visibility is a property of the full path.
pub open spec fn path_visible(path: Seq<Seq<u8>>) -> bool {
    forall|i: int| 0 <= i < path.len() ==> !spec_is_hidden(#[trigger] path[i])
}

/// Well-formedness descends to any child found by name.
pub proof fn lemma_wf_find_child(cs: Seq<DirChild>, name: Seq<u8>)
    requires
        children_wf(cs),
    ensures
        find_child(cs, name) matches Some(c) ==> tree_wf(c.tree),
    decreases cs.len(),
{
    if cs.len() > 0 && cs[0].name@ != name {
        lemma_wf_find_child(cs.drop_first(), name);
    }
}

/// A linear scan that has ruled the first `j` names out agrees with
/// `find_child`.
proof fn lemma_find_child_at(cs: Seq<DirChild>, name: Seq<u8>, j: int)
    requires
        0 <= j <= cs.len(),
        forall|k: int| 0 <= k < j ==> (#[trigger] cs[k].name@) != name,
    ensures
        j < cs.len() && cs[j].name@ == name ==> find_child(cs, name) == Some(cs[j]),
        j == cs.len() ==> find_child(cs, name) is None,
    decreases cs.len(),
{
    if cs.len() > 0 && !(j == 0 && cs[0].name@ == name) {
        assert(cs[0].name@ != name);
        assert forall|k: int| 0 <= k < j - 1 implies (#[trigger] cs.drop_first()[k].name@)
            != name by {
            assert(cs.drop_first()[k] == cs[k + 1]);
        }
        lemma_find_child_at(cs.drop_first(), name, if j == 0 {
            0
        } else {
            j - 1
        });
        if 0 < j < cs.len() && cs[j].name@ == name {
            assert(cs.drop_first()[j - 1] == cs[j]);
        }
    }
}

/// Whether every component of the path is visible.
pub fn path_is_visible(p: &Vec<Vec<u8>>) -> (r: bool)
    ensures
        r == path_visible(p.deep_view()),
{
    let ghost pv = p.deep_view();
    let mut i: usize = 0;
    while i < p.len()
        invariant
            i <= p.len(),
            pv == p.deep_view(),
            forall|k: int| 0 <= k < i ==> !spec_is_hidden(#[trigger] pv[k]),
        decreases p.len() - i,
    {
        if crate::entry::is_hidden_name(&p[i]) {
            proof {
                assert(pv[i as int] =~= p@[i as int]@);
            }
            return false;
        }
        proof {
            assert(pv[i as int] =~= p@[i as int]@);
        }
        i += 1;
    }
    true
}

/// Byte-string equality.
pub fn bytes_eq(a: &Vec<u8>, b: &Vec<u8>) -> (r: bool)
    ensures
        r == (a@ == b@),
{
    if a.len() != b.len() {
        return false;
    }
    let mut i: usize = 0;
    while i < a.len()
        invariant
            i <= a.len(),
            a@.len() == b@.len(),
            forall|k: int| 0 <= k < i ==> a@[k] == b@[k],
        decreases a.len() - i,
    {
        if a[i] != b[i] {
            return false;
        }
        i += 1;
    }
    assert(a@ =~= b@);
    true
}

/// Descends from `t` along the components of `path` starting at
/// position `i`.
#[verifier::loop_isolation(false)]
fn lookup_at<'a>(t: &'a FsTree, path: &Vec<Vec<u8>>, i: usize) -> (r: Option<&'a FsTree>)
    requires
        i <= path@.len(),
    ensures
        (match r {
            Some(sub) => spec_lookup(*t, path.deep_view().skip(i as int)) == Some(*sub),
            None => spec_lookup(*t, path.deep_view().skip(i as int)) is None,
        }),
    decreases path@.len() - i,
{
    let ghost rest = path.deep_view().skip(i as int);
    if i == path.len() {
        assert(rest =~= Seq::<Seq<u8>>::empty());
        return Some(t);
    }
    assert(rest.len() > 0);
    assert(rest[0] =~= path@[i as int]@);
    match t {
        FsTree::File { .. } => None,
        FsTree::Dir { children, .. } => {
            let ghost cs = children@;
            let mut j: usize = 0;
            while j < children.len()
                invariant
                    j <= children.len(),
                    children@ == cs,
                    forall|k: int| 0 <= k < j ==> (#[trigger] cs[k].name@) != rest[0],
                decreases children.len() - j,
            {
                if bytes_eq(&children[j].name, &path[i]) {
                    proof {
                        lemma_find_child_at(cs, rest[0], j as int);
                        assert(find_child(cs, rest[0]) == Some(cs[j as int]));
                        assert(rest.drop_first() =~= path.deep_view().skip(i + 1));
                    }
                    return lookup_at(&children[j].tree, path, i + 1);
                }
                j += 1;
            }
            proof {
                lemma_find_child_at(cs, rest[0], children.len() as int);
            }
            None
        },
    }
}

/// The subtree of `t` at `path`, if that path names an entry of the
/// snapshot.
pub fn lookup_subtree<'a>(t: &'a FsTree, path: &Vec<Vec<u8>>) -> (r: Option<&'a FsTree>)
    ensures
        (match r {
            Some(sub) => spec_lookup(*t, path.deep_view()) == Some(*sub),
            None => spec_lookup(*t, path.deep_view()) is None,
        }),
{
    let r = lookup_at(t, path, 0);
    assert(path.deep_view().skip(0) =~= path.deep_view());
    r
}

/// Looking a path up in a well-formed snapshot yields a well-formed
/// subtree.
pub proof fn lemma_lookup_wf(t: FsTree, path: Seq<Seq<u8>>)
    requires
        tree_wf(t),
    ensures
        spec_lookup(t, path) matches Some(s) ==> tree_wf(s),
    decreases path.len(),
{
    if path.len() > 0 {
        match t {
            FsTree::File { .. } => {
            },
            FsTree::Dir { children, .. } => {
                match find_child(children@, path[0]) {
                    None => {
                    },
                    Some(c) => {
                        lemma_wf_find_child(children@, path[0]);
                        lemma_lookup_wf(c.tree, path.drop_first());
                    },
                }
            },
        }
    }
}

/// `find_child` succeeds exactly on the names present in `cs`, and
/// returns an element of `cs`.
pub proof fn lemma_find_child_members(cs: Seq<DirChild>, name: Seq<u8>)
    ensures
        find_child(cs, name) matches Some(c) ==> exists|k: int|
            0 <= k < cs.len() && cs[k] == c && cs[k].name@ == name,
        (exists|k: int| 0 <= k < cs.len() && (#[trigger] cs[k].name@) == name)
            ==> find_child(cs, name) is Some,
    decreases cs.len(),
{
    if cs.len() > 0 {
        lemma_find_child_members(cs.drop_first(), name);
        if cs[0].name@ != name {
            if find_child(cs, name) is Some {
                let k0 = choose|k: int|
                    0 <= k < cs.drop_first().len() && cs.drop_first()[k] == find_child(
                        cs,
                        name,
                    )->Some_0 && cs.drop_first()[k].name@ == name;
                assert(cs[k0 + 1] == cs.drop_first()[k0]);
            }
            if exists|k: int| 0 <= k < cs.len() && (#[trigger] cs[k].name@) == name {
                let k = choose|k: int| 0 <= k < cs.len() && (#[trigger] cs[k].name@) == name;
                assert(cs.drop_first()[k - 1] == cs[k]);
            }
        }
    }
}

} // verus!
