//! The directory walker: turns a snapshot subtree into the ordered
//! list of entries the archive will contain.
//!
//! Traversal is depth first; a directory is reported before its
//! children, so the archive stays structurally valid even if the
//! consumer stops mid-stream. Hidden children are pruned together with
//! their whole subtree. Each call yields a fresh list.

use vstd::prelude::*;
use crate::entry::spec_is_hidden;
use crate::tree::{DirChild, FsTree};

verus! {

/// The mathematical model of one archive entry.
pub ghost struct EntryModel {
    /// Root-relative path, as name components.
    pub path: Seq<Seq<u8>>,
    pub is_dir: bool,
    /// Last-modification time, in seconds.
    pub mtime: u64,
    /// File contents; empty for directories.
    pub data: Seq<u8>,
}

/// One walked entry, ready for serialization: a root-relative path,
/// the entry kind, the modification time, and for regular files the
/// file contents.
pub struct ArchiveEntry {
    pub path: Vec<Vec<u8>>,
    pub is_dir: bool,
    pub mtime: u64,
    pub data: Vec<u8>,
}

impl View for ArchiveEntry {
    type V = EntryModel;

    open spec fn view(&self) -> EntryModel {
        EntryModel {
            path: self.path.deep_view(),
            is_dir: self.is_dir,
            mtime: self.mtime,
            data: self.data@,
        }
    }
}

impl DeepView for ArchiveEntry {
    type V = EntryModel;

    open spec fn deep_view(&self) -> EntryModel {
        self.view()
    }
}

/// The entry reporting the node `t` itself, at path `path`.
pub open spec fn node_entry(t: FsTree, path: Seq<Seq<u8>>) -> EntryModel {
    match t {
        FsTree::File { mtime, data } => EntryModel {
            path,
            is_dir: false,
            mtime,
            data: data@,
        },
        FsTree::Dir { mtime, .. } => EntryModel { path, is_dir: true, mtime, data: Seq::empty() },
    }
}

/// The full walk of the node `t` standing at `prefix`: the node itself
/// first (omitted when `prefix` is empty, i.e. for the served root of
/// the request), then the walks of its visible children in order.
pub open spec fn spec_walk(t: FsTree, prefix: Seq<Seq<u8>>) -> Seq<EntryModel>
    decreases t, 1int,
{
    let own = if prefix.len() == 0 {
        Seq::<EntryModel>::empty()
    } else {
        seq![node_entry(t, prefix)]
    };
    match t {
        FsTree::File { .. } => own,
        FsTree::Dir { children, .. } => own + spec_walk_children(children@, prefix),
    }
}

/// The concatenated walks of the children `cs` of a directory at
/// `prefix`, hidden children pruned.
pub open spec fn spec_walk_children(cs: Seq<DirChild>, prefix: Seq<Seq<u8>>) -> Seq<EntryModel>
    decreases cs, 0int,
{
    if cs.len() == 0 {
        Seq::empty()
    } else {
        let head = if spec_is_hidden(cs[0].name@) {
            Seq::<EntryModel>::empty()
        } else {
            spec_walk(cs[0].tree, prefix.push(cs[0].name@))
        };
        head + spec_walk_children(cs.drop_first(), prefix)
    }
}

/// The walk of the visible children of `cs` taken one child at a time
/// splits at any point.
proof fn lemma_walk_children_concat(cs1: Seq<DirChild>, cs2: Seq<DirChild>, prefix: Seq<Seq<u8>>)
    ensures
        spec_walk_children(cs1 + cs2, prefix) == spec_walk_children(cs1, prefix)
            + spec_walk_children(cs2, prefix),
    decreases cs1.len(),
{
    if cs1.len() == 0 {
        assert(cs1 + cs2 =~= cs2);
        assert(spec_walk_children(cs1, prefix) + spec_walk_children(cs2, prefix)
            =~= spec_walk_children(cs2, prefix));
    } else {
        assert((cs1 + cs2).drop_first() =~= cs1.drop_first() + cs2);
        assert((cs1 + cs2)[0] == cs1[0]);
        lemma_walk_children_concat(cs1.drop_first(), cs2, prefix);
        assert(spec_walk_children(cs1 + cs2, prefix) =~= spec_walk_children(cs1, prefix)
            + spec_walk_children(cs2, prefix));
    }
}

/// One more child extends the walk by that child's contribution.
proof fn lemma_walk_children_snoc(cs: Seq<DirChild>, i: int, prefix: Seq<Seq<u8>>)
    requires
        0 <= i < cs.len(),
    ensures
        spec_walk_children(cs.take(i + 1), prefix) == spec_walk_children(cs.take(i), prefix) + (
        if spec_is_hidden(cs[i].name@) {
            Seq::<EntryModel>::empty()
        } else {
            spec_walk(cs[i].tree, prefix.push(cs[i].name@))
        }),
{
    assert(cs.take(i + 1) =~= cs.take(i) + seq![cs[i]]);
    lemma_walk_children_concat(cs.take(i), seq![cs[i]], prefix);
    let one = seq![cs[i]];
    assert(one.drop_first() =~= Seq::<DirChild>::empty());
    assert(spec_walk_children(Seq::<DirChild>::empty(), prefix) == Seq::<EntryModel>::empty());
    let head = if spec_is_hidden(cs[i].name@) {
        Seq::<EntryModel>::empty()
    } else {
        spec_walk(cs[i].tree, prefix.push(cs[i].name@))
    };
    assert(one[0] == cs[i]);
    assert(spec_walk_children(one, prefix) == head + Seq::<EntryModel>::empty());
    assert(head + Seq::<EntryModel>::empty() =~= head);
}

/// `a` is a proper ancestor path of `b`.
pub open spec fn strict_prefix(a: Seq<Seq<u8>>, b: Seq<Seq<u8>>) -> bool {
    a.len() < b.len() && b.take(a.len() as int) == a
}

/// Every entry's path extends `prefix`.
pub open spec fn within_prefix(w: Seq<EntryModel>, prefix: Seq<Seq<u8>>) -> bool {
    forall|i: int|
        0 <= i < w.len() ==> (#[trigger] w[i]).path.len() >= prefix.len() && w[i].path.take(
            prefix.len() as int,
        ) == prefix
}

/// Every entry's path is strictly longer than `prefix` and extends it.
pub open spec fn below_prefix(w: Seq<EntryModel>, prefix: Seq<Seq<u8>>) -> bool {
    forall|i: int|
        0 <= i < w.len() ==> (#[trigger] w[i]).path.len() > prefix.len() && w[i].path.take(
            prefix.len() as int,
        ) == prefix
}

/// No path occurs twice: every entry appears at most once.
pub open spec fn paths_distinct(w: Seq<EntryModel>) -> bool {
    forall|i: int, j: int|
        0 <= i < w.len() && 0 <= j < w.len() && i != j ==> (#[trigger] w[i]).path != (
        #[trigger] w[j]).path
}

/// An entry whose path is a proper ancestor of another's is a
/// directory and stands earlier in the stream.
pub open spec fn parents_first(w: Seq<EntryModel>) -> bool {
    forall|i: int, j: int|
        0 <= i < w.len() && 0 <= j < w.len() && strict_prefix(
            (#[trigger] w[i]).path,
            (#[trigger] w[j]).path,
        ) ==> i < j && w[i].is_dir
}

/// No path component at or beyond position `plen` is hidden.
pub open spec fn hidden_free_below(w: Seq<EntryModel>, plen: int) -> bool {
    forall|i: int, k: int|
        #![trigger w[i].path[k]]
        0 <= i < w.len() && plen <= k < w[i].path.len() ==> !spec_is_hidden(w[i].path[k])
}

/// Some earlier entry is the directory at `w[j].path.take(k)`.
pub open spec fn has_dir_ancestor(w: Seq<EntryModel>, j: int, k: int) -> bool {
    exists|i: int| 0 <= i < j && (#[trigger] w[i]).path == w[j].path.take(k) && w[i].is_dir
}

/// Every proper ancestor of an entry's path beyond position `plen`
/// appears earlier in the stream, as a directory.
pub open spec fn ancestors_closed(w: Seq<EntryModel>, plen: int) -> bool {
    forall|j: int, k: int|
        #![trigger w[j].path.take(k)]
        0 <= j < w.len() && plen < k < w[j].path.len() ==> has_dir_ancestor(w, j, k)
}

/// `n` is the name of a visible child of `cs`.
pub open spec fn visible_name(cs: Seq<DirChild>, n: Seq<u8>) -> bool {
    exists|m: int| 0 <= m < cs.len() && (#[trigger] cs[m].name@) == n && !spec_is_hidden(n)
}

/// Each entry's component at position `plen` names a visible child.
pub open spec fn child_attributed(w: Seq<EntryModel>, cs: Seq<DirChild>, plen: int) -> bool {
    forall|i: int| 0 <= i < w.len() ==> visible_name(cs, (#[trigger] w[i]).path[plen])
}

/// The walk of a well-formed node at `prefix` is sound and orderly:
/// every path extends `prefix`; the node itself comes first; no path
/// appears twice; a proper ancestor of an entry always stands earlier
/// in the stream, as a directory; and no component below `prefix` is
/// hidden. A walked file contributes at most one entry.
#[verifier::rlimit(100)]
#[verifier::spinoff_prover]
pub proof fn lemma_walk_props(t: FsTree, prefix: Seq<Seq<u8>>)
    requires
        crate::tree::tree_wf(t),
    ensures
        within_prefix(spec_walk(t, prefix), prefix),
        prefix.len() > 0 ==> spec_walk(t, prefix).len() > 0 && spec_walk(t, prefix)[0]
            == node_entry(t, prefix),
        forall|i: int|
            0 <= i < spec_walk(t, prefix).len() && (#[trigger] spec_walk(t, prefix)[i]).path.len()
                == prefix.len() ==> i == 0 && prefix.len() > 0,
        paths_distinct(spec_walk(t, prefix)),
        parents_first(spec_walk(t, prefix)),
        hidden_free_below(spec_walk(t, prefix), prefix.len() as int),
        ancestors_closed(spec_walk(t, prefix), prefix.len() as int),
        t matches FsTree::File { .. } ==> spec_walk(t, prefix).len() <= 1,
    decreases t, 1int,
{
    let w = spec_walk(t, prefix);
    if prefix.len() > 0 {
        assert(prefix.take(prefix.len() as int) =~= prefix);
    }
    match t {
        FsTree::File { .. } => {
            assert(ancestors_closed(w, prefix.len() as int)) by {
                assert forall|j: int, k: int|
                    #![trigger w[j].path.take(k)]
                    0 <= j < w.len() && prefix.len() < k < w[j].path.len() implies has_dir_ancestor(
                    w,
                    j,
                    k,
                ) by {
                    assert(w[j].path.len() == prefix.len());
                }
            }
        },
        FsTree::Dir { children, .. } => {
            lemma_walk_children_props(children@, prefix);
            let wc = spec_walk_children(children@, prefix);
            let own: int = if prefix.len() == 0 {
                0
            } else {
                1
            };
            assert(w.len() == own + wc.len());
            assert(forall|i: int| 0 <= i < wc.len() ==> w[own + i] == wc[i]);
            assert(paths_distinct(w)) by {
                assert forall|i: int, j: int|
                    0 <= i < w.len() && 0 <= j < w.len() && i != j implies (#[trigger] w[i]).path
                    != (#[trigger] w[j]).path by {
                    if own == 1 && i == 0 {
                        assert(w[j].path.len() > prefix.len());
                    } else if own == 1 && j == 0 {
                        assert(w[i].path.len() > prefix.len());
                    } else {
                        assert(wc[i - own].path != wc[j - own].path);
                    }
                }
            }
            assert(parents_first(w)) by {
                assert forall|i: int, j: int|
                    0 <= i < w.len() && 0 <= j < w.len() && strict_prefix(
                        (#[trigger] w[i]).path,
                        (#[trigger] w[j]).path,
                    ) implies i < j && w[i].is_dir by {
                    if own == 1 && j == 0 {
                        assert(w[i].path.len() >= prefix.len());
                        assert(false);
                    } else if own == 1 && i == 0 {
                        assert(j > 0);
                    } else {
                        assert(strict_prefix(wc[i - own].path, wc[j - own].path));
                        assert(i - own < j - own && wc[i - own].is_dir);
                    }
                }
            }
            assert(ancestors_closed(w, prefix.len() as int)) by {
                assert forall|j: int, k: int|
                    #![trigger w[j].path.take(k)]
                    0 <= j < w.len() && prefix.len() < k < w[j].path.len() implies has_dir_ancestor(
                    w,
                    j,
                    k,
                ) by {
                    assert(j >= own);
                    let jc = j - own;
                    assert(w[j] == wc[jc]);
                    assert(wc[jc].path.take(k) == w[j].path.take(k));
                    assert(has_dir_ancestor(wc, jc, k));
                    let ic = choose|ic: int|
                        0 <= ic < jc && (#[trigger] wc[ic]).path == wc[jc].path.take(k)
                            && wc[ic].is_dir;
                    assert(w[own + ic].path == w[j].path.take(k) && w[own + ic].is_dir);
                    assert(0 <= own + ic < j);
                }
            }
            assert(hidden_free_below(w, prefix.len() as int)) by {
                assert forall|i: int, k: int|
                    #![trigger w[i].path[k]]
                    0 <= i < w.len() && prefix.len() <= k < w[i].path.len()
                    implies !spec_is_hidden(w[i].path[k]) by {
                    assert(i >= own);
                    assert(w[i] == wc[i - own]);
                    assert(!spec_is_hidden(wc[i - own].path[k]));
                }
            }
        },
    }
}

/// The concatenated walks of the visible children of a well-formed
/// directory's child list, standing at `prefix`, satisfy the same
/// soundness and ordering properties; every path is strictly longer
/// than `prefix` and starts, below it, with the name of a visible
/// child.
#[verifier::rlimit(100)]
#[verifier::spinoff_prover]
pub proof fn lemma_walk_children_props(cs: Seq<DirChild>, prefix: Seq<Seq<u8>>)
    requires
        forall|i: int, j: int| 0 <= i < j < cs.len() ==> cs[i].name@ != cs[j].name@,
        crate::tree::children_wf(cs),
    ensures
        below_prefix(spec_walk_children(cs, prefix), prefix),
        child_attributed(spec_walk_children(cs, prefix), cs, prefix.len() as int),
        paths_distinct(spec_walk_children(cs, prefix)),
        parents_first(spec_walk_children(cs, prefix)),
        hidden_free_below(spec_walk_children(cs, prefix), prefix.len() as int),
        ancestors_closed(spec_walk_children(cs, prefix), prefix.len() as int),
    decreases cs, 0int,
{
    if cs.len() == 0 {
        return ;
    }
    let w = spec_walk_children(cs, prefix);
    let n0 = cs[0].name@;
    let rest = spec_walk_children(cs.drop_first(), prefix);
    assert forall|i: int, j: int| 0 <= i < j < cs.drop_first().len() implies cs.drop_first()[i].name@
        != cs.drop_first()[j].name@ by {
        assert(cs.drop_first()[i] == cs[i + 1]);
        assert(cs.drop_first()[j] == cs[j + 1]);
    }
    lemma_walk_children_props(cs.drop_first(), prefix);
    assert forall|i: int| 0 <= i < rest.len() implies (#[trigger] rest[i]).path[prefix.len() as int]
        != n0 by {
        assert(visible_name(cs.drop_first(), rest[i].path[prefix.len() as int]));
        let m = choose|m: int|
            0 <= m < cs.drop_first().len() && (#[trigger] cs.drop_first()[m].name@)
                == rest[i].path[prefix.len() as int] && !spec_is_hidden(
                rest[i].path[prefix.len() as int]);
        assert(cs.drop_first()[m] == cs[m + 1]);
        assert(cs[m + 1].name@ != cs[0].name@);
    }
    if spec_is_hidden(n0) {
        assert(w =~= rest);
        assert(child_attributed(w, cs, prefix.len() as int)) by {
            assert forall|i: int| 0 <= i < w.len() implies visible_name(
                cs,
                (#[trigger] w[i]).path[prefix.len() as int],
            ) by {
                let n = w[i].path[prefix.len() as int];
                assert(visible_name(cs.drop_first(), n));
                let m = choose|m: int|
                    0 <= m < cs.drop_first().len() && (#[trigger] cs.drop_first()[m].name@) == n
                        && !spec_is_hidden(n);
                assert(cs[m + 1].name@ == n);
            }
        }
    } else {
        let prefix2 = prefix.push(n0);
        assert(crate::tree::tree_wf(cs[0].tree));
        lemma_walk_props(cs[0].tree, prefix2);
        let sub = spec_walk(cs[0].tree, prefix2);
        assert(w.len() == sub.len() + rest.len());
        assert(forall|i: int| 0 <= i < sub.len() ==> w[i] == sub[i]);
        assert(forall|i: int| 0 <= i < rest.len() ==> w[sub.len() + i] == rest[i]);
        assert(prefix2.len() == prefix.len() + 1);
        assert forall|i: int| 0 <= i < sub.len() implies (#[trigger] sub[i]).path.len()
            > prefix.len() && sub[i].path.take(prefix.len() as int) == prefix
            && sub[i].path[prefix.len() as int] == n0 by {
            assert(sub[i].path.take(prefix2.len() as int) == prefix2);
            assert(sub[i].path.take(prefix2.len() as int)[prefix.len() as int] == n0);
            assert(sub[i].path[prefix.len() as int] == n0);
            assert(sub[i].path.take(prefix.len() as int) =~= prefix);
        }
        assert(below_prefix(w, prefix));
        assert(child_attributed(w, cs, prefix.len() as int)) by {
            assert forall|i: int| 0 <= i < w.len() implies visible_name(
                cs,
                (#[trigger] w[i]).path[prefix.len() as int],
            ) by {
                let n = w[i].path[prefix.len() as int];
                if i < sub.len() {
                    assert(cs[0].name@ == n && !spec_is_hidden(n));
                } else {
                    assert(visible_name(cs.drop_first(), n));
                    let m = choose|m: int|
                        0 <= m < cs.drop_first().len() && (#[trigger] cs.drop_first()[m].name@) == n
                            && !spec_is_hidden(n);
                    assert(cs[m + 1].name@ == n);
                }
            }
        }
        assert(paths_distinct(w)) by {
            assert forall|i: int, j: int|
                0 <= i < w.len() && 0 <= j < w.len() && i != j implies (#[trigger] w[i]).path != (
            #[trigger] w[j]).path by {
                if i < sub.len() && j < sub.len() {
                    assert(sub[i].path != sub[j].path);
                } else if i >= sub.len() && j >= sub.len() {
                    assert(rest[i - sub.len()].path != rest[j - sub.len()].path);
                } else {
                    let si = if i < sub.len() {
                        i
                    } else {
                        j
                    };
                    let rj = if i < sub.len() {
                        j
                    } else {
                        i
                    };
                    assert(w[si].path[prefix.len() as int] == n0);
                    assert(w[rj].path[prefix.len() as int] != n0);
                }
            }
        }
        assert(parents_first(w)) by {
            assert forall|i: int, j: int|
                0 <= i < w.len() && 0 <= j < w.len() && strict_prefix(
                    (#[trigger] w[i]).path,
                    (#[trigger] w[j]).path,
                ) implies i < j && w[i].is_dir by {
                if i < sub.len() && j < sub.len() {
                    assert(strict_prefix(sub[i].path, sub[j].path));
                } else if i >= sub.len() && j >= sub.len() {
                    assert(strict_prefix(rest[i - sub.len()].path, rest[j - sub.len()].path));
                } else {
                    assert(w[j].path.take(w[i].path.len() as int)[prefix.len() as int]
                        == w[j].path[prefix.len() as int]);
                    assert(false);
                }
            }
        }
        assert(hidden_free_below(w, prefix.len() as int)) by {
            assert forall|i: int, k: int|
                #![trigger w[i].path[k]]
                0 <= i < w.len() && prefix.len() <= k < w[i].path.len()
                implies !spec_is_hidden(w[i].path[k]) by {
                if i < sub.len() {
                    if k == prefix.len() {
                        assert(w[i].path[k] == n0);
                    } else {
                        assert(!spec_is_hidden(sub[i].path[k]));
                    }
                } else {
                    assert(!spec_is_hidden(rest[i - sub.len()].path[k]));
                }
            }
        }
        assert(ancestors_closed(w, prefix.len() as int)) by {
            assert forall|j: int, k: int|
                #![trigger w[j].path.take(k)]
                0 <= j < w.len() && prefix.len() < k < w[j].path.len() implies has_dir_ancestor(
                w,
                j,
                k,
            ) by {
                if j < sub.len() {
                    if k == prefix2.len() {
                        assert(j != 0);
                        assert(sub[0].path == prefix2);
                        assert(sub.len() > 1);
                        assert(!(cs[0].tree matches FsTree::File { .. }));
                        assert(sub[0].is_dir);
                        assert(w[j].path.take(k) =~= sub[j].path.take(prefix2.len() as int));
                        assert(w[0].path == w[j].path.take(k) && w[0].is_dir && 0 < j);
                    } else {
                        assert(prefix2.len() < k < sub[j].path.len());
                        assert(sub[j].path.take(k) == w[j].path.take(k));
                        assert(has_dir_ancestor(sub, j, k));
                        let i = choose|i: int|
                            0 <= i < j && (#[trigger] sub[i]).path == sub[j].path.take(k)
                                && sub[i].is_dir;
                        assert(w[i].path == w[j].path.take(k) && w[i].is_dir && 0 <= i < j);
                    }
                } else {
                    let jr = j - sub.len();
                    assert(w[j] == rest[jr]);
                    assert(rest[jr].path.take(k) == w[j].path.take(k));
                    assert(has_dir_ancestor(rest, jr, k));
                    let i = choose|i: int|
                        0 <= i < jr && (#[trigger] rest[i]).path == rest[jr].path.take(k)
                            && rest[i].is_dir;
                    assert(w[sub.len() + i].path == w[j].path.take(k) && w[sub.len() + i].is_dir);
                    assert(0 <= sub.len() + i < j);
                }
            }
        }
    }
}
/// The entry `e`, standing below `prefix`, reports exactly the node
/// the snapshot holds at its own relative path.
pub open spec fn entry_resolves(t: FsTree, prefix: Seq<Seq<u8>>, e: EntryModel) -> bool {
    match crate::tree::spec_lookup(t, e.path.skip(prefix.len() as int)) {
        Some(s) => e == node_entry(s, e.path),
        None => false,
    }
}

/// As [`entry_resolves`], under a directory with children `cs`.
pub open spec fn entry_resolves_in(cs: Seq<DirChild>, prefix: Seq<Seq<u8>>, e: EntryModel) -> bool {
    match crate::tree::lookup_children(cs, e.path.skip(prefix.len() as int)) {
        Some(s) => e == node_entry(s, e.path),
        None => false,
    }
}

/// Every entry of `w` resolves in the snapshot `t`.
pub open spec fn all_resolve(w: Seq<EntryModel>, t: FsTree, prefix: Seq<Seq<u8>>) -> bool {
    forall|i: int| 0 <= i < w.len() ==> entry_resolves(t, prefix, #[trigger] w[i])
}

/// Every entry of `w` resolves under the children `cs`.
pub open spec fn all_resolve_in(w: Seq<EntryModel>, cs: Seq<DirChild>, prefix: Seq<Seq<u8>>) -> bool {
    forall|i: int| 0 <= i < w.len() ==> entry_resolves_in(cs, prefix, #[trigger] w[i])
}

/// Soundness of the walk: every reported entry is exactly the node
/// the snapshot holds at that path — the archive invents nothing.
#[verifier::rlimit(100)]
pub proof fn lemma_walk_sound(t: FsTree, prefix: Seq<Seq<u8>>)
    requires
        crate::tree::tree_wf(t),
    ensures
        all_resolve(spec_walk(t, prefix), t, prefix),
    decreases t, 1int,
{
    let w = spec_walk(t, prefix);
    let empty_path = Seq::<Seq<u8>>::empty();
    assert(prefix.skip(prefix.len() as int) =~= empty_path);
    match t {
        FsTree::File { .. } => {
            assert(all_resolve(w, t, prefix)) by {
                assert forall|i: int| 0 <= i < w.len() implies entry_resolves(
                    t,
                    prefix,
                    #[trigger] w[i],
                ) by {
                    assert(w[i] == node_entry(t, prefix));
                    assert(w[i].path.skip(prefix.len() as int) =~= empty_path);
                }
            }
        },
        FsTree::Dir { children, .. } => {
            let cs = children@;
            lemma_walk_children_sound(cs, prefix);
            lemma_walk_children_props(cs, prefix);
            let wc = spec_walk_children(cs, prefix);
            let own: int = if prefix.len() == 0 {
                0
            } else {
                1
            };
            assert(all_resolve(w, t, prefix)) by {
                assert forall|i: int| 0 <= i < w.len() implies entry_resolves(
                    t,
                    prefix,
                    #[trigger] w[i],
                ) by {
                    if own == 1 && i == 0 {
                        assert(w[0] == node_entry(t, prefix));
                        assert(w[0].path.skip(prefix.len() as int) =~= empty_path);
                    } else {
                        let e = wc[i - own];
                        assert(w[i] == e);
                        assert(entry_resolves_in(cs, prefix, e));
                        assert(e.path.len() > prefix.len());
                        assert(e.path.skip(prefix.len() as int).len() > 0);
                    }
                }
            }
        },
    }
}

/// Soundness of the walk of a directory's visible children.
#[verifier::rlimit(100)]
pub proof fn lemma_walk_children_sound(cs: Seq<DirChild>, prefix: Seq<Seq<u8>>)
    requires
        forall|i: int, j: int| 0 <= i < j < cs.len() ==> cs[i].name@ != cs[j].name@,
        crate::tree::children_wf(cs),
    ensures
        all_resolve_in(spec_walk_children(cs, prefix), cs, prefix),
    decreases cs, 0int,
{
    if cs.len() == 0 {
        return ;
    }
    let w = spec_walk_children(cs, prefix);
    let n0 = cs[0].name@;
    let rest = spec_walk_children(cs.drop_first(), prefix);
    assert forall|i: int, j: int| 0 <= i < j < cs.drop_first().len() implies cs.drop_first()[i].name@
        != cs.drop_first()[j].name@ by {
        assert(cs.drop_first()[i] == cs[i + 1]);
        assert(cs.drop_first()[j] == cs[j + 1]);
    }
    lemma_walk_children_sound(cs.drop_first(), prefix);
    lemma_walk_children_props(cs.drop_first(), prefix);
    lemma_walk_children_props(cs, prefix);
    assert forall|i: int| 0 <= i < rest.len() implies (#[trigger] rest[i]).path[prefix.len() as int]
        != n0 by {
        assert(visible_name(cs.drop_first(), rest[i].path[prefix.len() as int]));
        let m = choose|m: int|
            0 <= m < cs.drop_first().len() && (#[trigger] cs.drop_first()[m].name@) == rest[
                i
            ].path[prefix.len() as int] && !spec_is_hidden(rest[i].path[prefix.len() as int]);
        assert(cs.drop_first()[m] == cs[m + 1]);
        assert(cs[m + 1].name@ != cs[0].name@);
    }
    assert forall|i: int| 0 <= i < rest.len() implies entry_resolves_in(
        cs,
        prefix,
        #[trigger] rest[i],
    ) by {
        let e = rest[i];
        assert(entry_resolves_in(cs.drop_first(), prefix, e));
        let sfx = e.path.skip(prefix.len() as int);
        assert(e.path.len() > prefix.len());
        assert(sfx[0] == e.path[prefix.len() as int]);
        assert(sfx[0] != n0);
        assert(crate::tree::find_child(cs, sfx[0]) == crate::tree::find_child(
            cs.drop_first(),
            sfx[0],
        ));
    }
    if spec_is_hidden(n0) {
        assert(w =~= rest);
        assert(all_resolve_in(w, cs, prefix)) by {
            assert forall|i: int| 0 <= i < w.len() implies entry_resolves_in(
                cs,
                prefix,
                #[trigger] w[i],
            ) by {
                assert(w[i] == rest[i]);
            }
        }
    } else {
        let prefix2 = prefix.push(n0);
        assert(crate::tree::tree_wf(cs[0].tree));
        lemma_walk_sound(cs[0].tree, prefix2);
        lemma_walk_props(cs[0].tree, prefix2);
        let sub = spec_walk(cs[0].tree, prefix2);
        assert(all_resolve_in(w, cs, prefix)) by {
            assert forall|i: int| 0 <= i < w.len() implies entry_resolves_in(
                cs,
                prefix,
                #[trigger] w[i],
            ) by {
                if i < sub.len() {
                    let e = sub[i];
                    assert(w[i] == e);
                    assert(entry_resolves(cs[0].tree, prefix2, e));
                    let sfx = e.path.skip(prefix.len() as int);
                    assert(e.path.take(prefix2.len() as int) == prefix2);
                    assert(e.path.take(prefix2.len() as int)[prefix.len() as int] == n0);
                    assert(e.path[prefix.len() as int] == n0);
                    assert(sfx.len() > 0 && sfx[0] == n0);
                    assert(crate::tree::find_child(cs, n0) == Some(cs[0]));
                    assert(sfx.drop_first() =~= e.path.skip(prefix2.len() as int));
                } else {
                    assert(w[i] == rest[i - sub.len()]);
                }
            }
        }
    }
}

/// Every entry of a visible child's walk occurs in the walk of the
/// whole child list.
proof fn lemma_children_contains(cs: Seq<DirChild>, prefix: Seq<Seq<u8>>, k: int)
    requires
        0 <= k < cs.len(),
        !spec_is_hidden(cs[k].name@),
    ensures
        forall|i: int|
            0 <= i < spec_walk(cs[k].tree, prefix.push(cs[k].name@)).len()
                ==> spec_walk_children(cs, prefix).contains(
                #[trigger] spec_walk(cs[k].tree, prefix.push(cs[k].name@))[i],
            ),
    decreases cs.len(),
{
    let w = spec_walk_children(cs, prefix);
    let subk = spec_walk(cs[k].tree, prefix.push(cs[k].name@));
    let rest = spec_walk_children(cs.drop_first(), prefix);
    if k == 0 {
        assert forall|i: int| 0 <= i < subk.len() implies w.contains(#[trigger] subk[i]) by {
            assert(w[i] == subk[i]);
        }
    } else {
        assert(cs.drop_first()[k - 1] == cs[k]);
        lemma_children_contains(cs.drop_first(), prefix, k - 1);
        let head = if spec_is_hidden(cs[0].name@) {
            Seq::<EntryModel>::empty()
        } else {
            spec_walk(cs[0].tree, prefix.push(cs[0].name@))
        };
        assert forall|i: int| 0 <= i < subk.len() implies w.contains(#[trigger] subk[i]) by {
            assert(rest.contains(subk[i]));
            let j = choose|j: int| 0 <= j < rest.len() && rest[j] == subk[i];
            assert(w[head.len() + j] == subk[i]);
        }
    }
}

/// Completeness of the walk: every visible path the snapshot resolves
/// is reported, as exactly the node found there — nothing reachable
/// and visible is left out.
pub proof fn lemma_walk_complete(t: FsTree, prefix: Seq<Seq<u8>>, p: Seq<Seq<u8>>)
    requires
        crate::tree::tree_wf(t),
        p.len() > 0,
        crate::tree::path_visible(p),
        crate::tree::spec_lookup(t, p) is Some,
    ensures
        spec_walk(t, prefix).contains(
            node_entry(crate::tree::spec_lookup(t, p)->Some_0, prefix + p),
        ),
    decreases p.len(),
{
    let w = spec_walk(t, prefix);
    match t {
        FsTree::File { .. } => {
            assert(false);
        },
        FsTree::Dir { children, .. } => {
            let cs = children@;
            let c = crate::tree::find_child(cs, p[0]);
            assert(c is Some);
            crate::tree::lemma_find_child_members(cs, p[0]);
            let k = choose|k: int|
                0 <= k < cs.len() && cs[k] == c->Some_0 && cs[k].name@ == p[0];
            assert(!spec_is_hidden(p[0]));
            crate::tree::lemma_wf_find_child(cs, p[0]);
            let prefix2 = prefix.push(cs[k].name@);
            let subk = spec_walk(cs[k].tree, prefix2);
            lemma_children_contains(cs, prefix, k);
            let target = node_entry(crate::tree::spec_lookup(t, p)->Some_0, prefix + p);
            if p.len() == 1 {
                assert(p.drop_first() =~= Seq::<Seq<u8>>::empty());
                assert(crate::tree::spec_lookup(t, p) == Some(cs[k].tree));
                assert(prefix2 =~= prefix + p);
                lemma_walk_props(cs[k].tree, prefix2);
                assert(subk[0] == target);
                assert(spec_walk_children(cs, prefix).contains(target));
            } else {
                assert forall|m: int| 0 <= m < p.drop_first().len() implies !spec_is_hidden(
                    #[trigger] p.drop_first()[m],
                ) by {
                    assert(p.drop_first()[m] == p[m + 1]);
                }
                assert(crate::tree::spec_lookup(t, p) == crate::tree::spec_lookup(
                    cs[k].tree,
                    p.drop_first(),
                ));
                lemma_walk_complete(cs[k].tree, prefix2, p.drop_first());
                assert(prefix2 + p.drop_first() =~= prefix + p);
                assert(subk.contains(target));
                let i = choose|i: int| 0 <= i < subk.len() && subk[i] == target;
                assert(spec_walk_children(cs, prefix).contains(subk[i]));
            }
            let wc = spec_walk_children(cs, prefix);
            let j = choose|j: int| 0 <= j < wc.len() && wc[j] == target;
            let own: int = if prefix.len() == 0 {
                0
            } else {
                1
            };
            assert(w[own + j] == target);
            assert(w.contains(target));
        },
    }
}

/// Copies a name.
pub fn clone_name(v: &Vec<u8>) -> (r: Vec<u8>)
    ensures
        r@ == v@,
{
    let mut r: Vec<u8> = Vec::new();
    let mut i: usize = 0;
    while i < v.len()
        invariant
            i <= v.len(),
            r@ == v@.take(i as int),
        decreases v.len() - i,
    {
        r.push(v[i]);
        assert(r@ =~= v@.take(i + 1));
        i += 1;
    }
    assert(r@ =~= v@);
    r
}

/// Copies a path.
pub fn clone_path(p: &Vec<Vec<u8>>) -> (r: Vec<Vec<u8>>)
    ensures
        r.deep_view() == p.deep_view(),
{
    let mut r: Vec<Vec<u8>> = Vec::new();
    let mut i: usize = 0;
    while i < p.len()
        invariant
            i <= p.len(),
            r@.len() == i,
            r.deep_view() == p.deep_view().take(i as int),
        decreases p.len() - i,
    {
        let ghost r_old = r@;
        let ghost rdv_old = r.deep_view();
        let c = clone_name(&p[i]);
        assert(c.deep_view() =~= p@[i as int].deep_view());
        let ghost cdv = c.deep_view();
        r.push(c);
        assert forall|k: int| 0 <= k < i + 1 implies r.deep_view()[k] == p.deep_view().take(
            i + 1,
        )[k] by {
            assert(r.deep_view()[k] == r@[k].deep_view());
            assert(p.deep_view().take(i + 1)[k] == p@[k].deep_view());
            if k < i {
                assert(r@[k] == r_old[k]);
                assert(rdv_old[k] == r_old[k].deep_view());
                assert(rdv_old[k] == p.deep_view().take(i as int)[k]);
            } else {
                assert(r@[k] == c);
                assert(cdv == p@[k].deep_view());
            }
        }
        assert(r.deep_view() =~= p.deep_view().take(i + 1));
        i += 1;
    }
    assert(r.deep_view() =~= p.deep_view());
    r
}

/// Copies file contents.
pub fn clone_data(v: &Vec<u8>) -> (r: Vec<u8>)
    ensures
        r@ == v@,
{
    clone_name(v)
}

/// Walks the node `t` standing at `prefix` and appends its entries to
/// `out`: the node itself first (omitted when `prefix` is empty), then
/// the visible children, depth first, hidden subtrees pruned.
#[verifier::loop_isolation(false)]
pub fn walk(t: &FsTree, prefix: &Vec<Vec<u8>>, out: &mut Vec<ArchiveEntry>)
    ensures
        final(out).deep_view() == old(out).deep_view() + spec_walk(*t, prefix.deep_view()),
    decreases *t,
{
    let ghost pre = prefix.deep_view();
    if prefix.len() > 0 {
        let e = match t {
            FsTree::File { mtime, data } => ArchiveEntry {
                path: clone_path(prefix),
                is_dir: false,
                mtime: *mtime,
                data: clone_data(data),
            },
            FsTree::Dir { mtime, .. } => ArchiveEntry {
                path: clone_path(prefix),
                is_dir: true,
                mtime: *mtime,
                data: Vec::new(),
            },
        };
        assert(e.deep_view() == node_entry(*t, pre));
        out.push(e);
    }
    let ghost own = if pre.len() == 0 {
        Seq::<EntryModel>::empty()
    } else {
        seq![node_entry(*t, pre)]
    };
    assert(out.deep_view() =~= old(out).deep_view() + own);
    match t {
        FsTree::File { .. } => {
            assert(out.deep_view() =~= old(out).deep_view() + spec_walk(*t, pre));
        }
        FsTree::Dir { children, .. } => {
            let ghost cs = children@;
            let mut i: usize = 0;
            while i < children.len()
                invariant
                    i <= children.len(),
                    out.deep_view() == old(out).deep_view() + own + spec_walk_children(
                        cs.take(i as int),
                        pre,
                    ),
                decreases children.len() - i,
            {
                let c = &children[i];
                if !crate::entry::is_hidden_name(&c.name) {
                    let mut p2 = clone_path(prefix);
                    let n = clone_name(&c.name);
                    assert(n.deep_view() =~= c.name@);
                    p2.push(n);
                    assert(p2.deep_view() =~= pre.push(c.name@));
                    proof {
                        assert(decreases_to!(*t => *children));
                        assert(decreases_to!(*children => children@));
                        assert(decreases_to!(children@ => children@[i as int]));
                        assert(decreases_to!(children@[i as int] => children@[i as int].tree));
                    }
                    walk(&c.tree, &p2, out);
                }
                proof {
                    lemma_walk_children_snoc(cs, i as int, pre);
                }
                i += 1;
            }
            assert(cs.take(children.len() as int) =~= cs);
            assert(out.deep_view() =~= old(out).deep_view() + spec_walk(*t, pre));
        }
    }
}

} // verus!
