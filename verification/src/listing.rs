//! The directory listing: one row per visible child of a listed
//! directory, hidden entries excluded, directories first and each
//! group ordered by modification time — the order the index page
//! shows.

use vstd::prelude::*;
use crate::entry::spec_is_hidden;
use crate::tree::{DirChild, FsTree};

verus! {

/// One listing row, as the index page shows it.
pub struct ListingRow {
    pub name: Vec<u8>,
    pub is_dir: bool,
    pub size: u64,
    pub mtime: u64,
}

/// The mathematical model of a listing row.
pub ghost struct RowModel {
    pub name: Seq<u8>,
    pub is_dir: bool,
    pub size: u64,
    pub mtime: u64,
}

impl View for ListingRow {
    type V = RowModel;

    open spec fn view(&self) -> RowModel {
        RowModel { name: self.name@, is_dir: self.is_dir, size: self.size, mtime: self.mtime }
    }
}

impl DeepView for ListingRow {
    type V = RowModel;

    open spec fn deep_view(&self) -> RowModel {
        self.view()
    }
}

/// Listing order: directories before files, then older first.
pub open spec fn row_le(a: RowModel, b: RowModel) -> bool {
    if a.is_dir != b.is_dir {
        a.is_dir
    } else {
        a.mtime <= b.mtime
    }
}

/// A listing in display order.
pub open spec fn rows_sorted(v: Seq<RowModel>) -> bool {
    forall|i: int, j: int| 0 <= i < j < v.len() ==> row_le(#[trigger] v[i], #[trigger] v[j])
}

/// The row shown for one child.
pub open spec fn row_of(c: DirChild) -> RowModel {
    match c.tree {
        FsTree::File { mtime, data } => RowModel {
            name: c.name@,
            is_dir: false,
            size: data@.len() as u64,
            mtime,
        },
        FsTree::Dir { mtime, .. } => RowModel { name: c.name@, is_dir: true, size: 0, mtime },
    }
}

/// The rows of the visible children of `cs`, in snapshot order.
pub open spec fn spec_rows(cs: Seq<DirChild>) -> Seq<RowModel>
    decreases cs.len(),
{
    if cs.len() == 0 {
        Seq::empty()
    } else {
        (if spec_is_hidden(cs[0].name@) {
            Seq::<RowModel>::empty()
        } else {
            seq![row_of(cs[0])]
        }) + spec_rows(cs.drop_first())
    }
}

/// The rows of a listed entry: a file lists nothing.
pub open spec fn spec_listing(t: FsTree) -> Seq<RowModel> {
    match t {
        FsTree::File { .. } => Seq::empty(),
        FsTree::Dir { children, .. } => spec_rows(children@),
    }
}

proof fn lemma_rows_concat(c1: Seq<DirChild>, c2: Seq<DirChild>)
    ensures
        spec_rows(c1 + c2) == spec_rows(c1) + spec_rows(c2),
    decreases c1.len(),
{
    if c1.len() == 0 {
        assert(c1 + c2 =~= c2);
        assert(spec_rows(c1) + spec_rows(c2) =~= spec_rows(c2));
    } else {
        assert((c1 + c2).drop_first() =~= c1.drop_first() + c2);
        assert((c1 + c2)[0] == c1[0]);
        lemma_rows_concat(c1.drop_first(), c2);
        assert(spec_rows(c1 + c2) =~= spec_rows(c1) + spec_rows(c2));
    }
}

proof fn lemma_rows_snoc(cs: Seq<DirChild>, i: int)
    requires
        0 <= i < cs.len(),
    ensures
        spec_rows(cs.take(i + 1)) == spec_rows(cs.take(i)) + (if spec_is_hidden(cs[i].name@) {
            Seq::<RowModel>::empty()
        } else {
            seq![row_of(cs[i])]
        }),
{
    assert(cs.take(i + 1) =~= cs.take(i) + seq![cs[i]]);
    lemma_rows_concat(cs.take(i), seq![cs[i]]);
    let one = seq![cs[i]];
    assert(one.drop_first() =~= Seq::<DirChild>::empty());
    assert(spec_rows(Seq::<DirChild>::empty()) == Seq::<RowModel>::empty());
    assert(one[0] == cs[i]);
    let head = if spec_is_hidden(cs[i].name@) {
        Seq::<RowModel>::empty()
    } else {
        seq![row_of(cs[i])]
    };
    assert(spec_rows(one) == head + Seq::<RowModel>::empty());
    assert(head + Seq::<RowModel>::empty() =~= head);
}

/// Every row of a listing is visible.
pub proof fn lemma_rows_visible(cs: Seq<DirChild>)
    ensures
        forall|i: int|
            0 <= i < spec_rows(cs).len() ==> !spec_is_hidden((#[trigger] spec_rows(cs)[i]).name),
    decreases cs.len(),
{
    if cs.len() > 0 {
        lemma_rows_visible(cs.drop_first());
        let w = spec_rows(cs);
        let restr = spec_rows(cs.drop_first());
        assert forall|i: int| 0 <= i < w.len() implies !spec_is_hidden((#[trigger] w[i]).name) by {
            if !spec_is_hidden(cs[0].name@) {
                if i == 0 {
                    assert(w[0] == row_of(cs[0]));
                } else {
                    assert(w[i] == restr[i - 1]);
                }
            } else {
                assert(w[i] == restr[i]);
            }
        }
    }
}

/// Whether `a` may stand at or before `b` in the listing.
fn row_le_exec(a: &ListingRow, b: &ListingRow) -> (r: bool)
    ensures
        r == row_le(a@, b@),
{
    if a.is_dir != b.is_dir {
        a.is_dir
    } else {
        a.mtime <= b.mtime
    }
}

/// Inserts a row into a sorted listing, keeping it sorted and adding
/// exactly that row.
#[verifier::loop_isolation(false)]
fn insert_sorted(s: &mut Vec<ListingRow>, row: ListingRow)
    requires
        rows_sorted(old(s).deep_view()),
    ensures
        rows_sorted(final(s).deep_view()),
        final(s).deep_view().to_multiset() == old(s).deep_view().to_multiset().insert(row@),
        final(s)@.len() == old(s)@.len() + 1,
        forall|i: int|
            0 <= i < final(s).deep_view().len() ==> (#[trigger] final(s).deep_view()[i]) == row@
                || old(s).deep_view().contains(final(s).deep_view()[i]),
{
    broadcast use vstd::seq_lib::group_to_multiset_ensures;

    let ghost dv = s.deep_view();
    let mut j: usize = s.len();
    while j > 0 && !row_le_exec(&s[j - 1], &row)
        invariant
            j <= s@.len(),
            forall|m: int| j <= m < dv.len() ==> !row_le(#[trigger] dv[m], row@),
        decreases j,
    {
        j -= 1;
    }
    assert(j > 0 ==> row_le(dv[j - 1], row@));
    s.insert(j, row);
    let ghost dv2 = s.deep_view();
    proof {
        assert(dv2 =~= dv.insert(j as int, row@));
        assert(rows_sorted(dv2)) by {
            assert forall|a: int, b: int| 0 <= a < b < dv2.len() implies row_le(
                #[trigger] dv2[a],
                #[trigger] dv2[b],
            ) by {
                if a < j && b == j {
                    assert(row_le(dv[j - 1], row@));
                    assert(a <= j - 1);
                    if a < j - 1 {
                        assert(row_le(dv[a], dv[j - 1]));
                    }
                } else if a == j && b > j {
                    assert(!row_le(dv[b - 1], row@));
                } else if a < j && b > j {
                    assert(row_le(dv[a], dv[b - 1]));
                } else if a > j && b > j {
                    assert(row_le(dv[a - 1], dv[b - 1]));
                }
            }
        }
        assert(dv2.remove(j as int) =~= dv);
        assert(dv2[j as int] == row@);
        assert(dv.to_multiset() == dv2.to_multiset().remove(row@));
        assert(dv2.contains(row@));
        assert(dv2.to_multiset().count(row@) > 0);
        assert(dv2.to_multiset() =~= dv.to_multiset().insert(row@));
        assert forall|i: int| 0 <= i < dv2.len() implies (#[trigger] dv2[i]) == row@
            || dv.contains(dv2[i]) by {
            if i < j {
                assert(dv2[i] == dv[i]);
            } else if i > j {
                assert(dv2[i] == dv[i - 1]);
            }
        }
    }
}

/// The visible rows of `rows`, in their given order.
pub open spec fn spec_visible_rows(rows: Seq<RowModel>) -> Seq<RowModel>
    decreases rows.len(),
{
    if rows.len() == 0 {
        Seq::empty()
    } else {
        (if spec_is_hidden(rows[0].name) {
            Seq::<RowModel>::empty()
        } else {
            seq![rows[0]]
        }) + spec_visible_rows(rows.drop_first())
    }
}

proof fn lemma_visible_rows_concat(r1: Seq<RowModel>, r2: Seq<RowModel>)
    ensures
        spec_visible_rows(r1 + r2) == spec_visible_rows(r1) + spec_visible_rows(r2),
    decreases r1.len(),
{
    if r1.len() == 0 {
        assert(r1 + r2 =~= r2);
        assert(spec_visible_rows(r1) + spec_visible_rows(r2) =~= spec_visible_rows(r2));
    } else {
        assert((r1 + r2).drop_first() =~= r1.drop_first() + r2);
        assert((r1 + r2)[0] == r1[0]);
        lemma_visible_rows_concat(r1.drop_first(), r2);
        assert(spec_visible_rows(r1 + r2) =~= spec_visible_rows(r1) + spec_visible_rows(r2));
    }
}

proof fn lemma_visible_rows_snoc(rows: Seq<RowModel>, i: int)
    requires
        0 <= i < rows.len(),
    ensures
        spec_visible_rows(rows.take(i + 1)) == spec_visible_rows(rows.take(i)) + (
        if spec_is_hidden(rows[i].name) {
            Seq::<RowModel>::empty()
        } else {
            seq![rows[i]]
        }),
{
    assert(rows.take(i + 1) =~= rows.take(i) + seq![rows[i]]);
    lemma_visible_rows_concat(rows.take(i), seq![rows[i]]);
    let one = seq![rows[i]];
    assert(one.drop_first() =~= Seq::<RowModel>::empty());
    assert(spec_visible_rows(Seq::<RowModel>::empty()) == Seq::<RowModel>::empty());
    assert(one[0] == rows[i]);
    let head = if spec_is_hidden(rows[i].name) {
        Seq::<RowModel>::empty()
    } else {
        seq![rows[i]]
    };
    assert(spec_visible_rows(one) == head + Seq::<RowModel>::empty());
    assert(head + Seq::<RowModel>::empty() =~= head);
}

/// Sorts the rows of a listing into display order, hidden rows
/// dropped: exactly the visible input rows survive, each once. This
/// is the listing logic for a caller that read only one directory
/// level of metadata.
pub fn sorted_rows(rows: &Vec<ListingRow>) -> (r: Vec<ListingRow>)
    ensures
        rows_sorted(r.deep_view()),
        r.deep_view().to_multiset() == spec_visible_rows(rows.deep_view()).to_multiset(),
        forall|i: int|
            0 <= i < r.deep_view().len() ==> !spec_is_hidden(
                (#[trigger] r.deep_view()[i]).name,
            ),
{
    broadcast use vstd::seq_lib::group_to_multiset_ensures;

    let ghost rv = rows.deep_view();
    let mut r: Vec<ListingRow> = Vec::new();
    proof {
        assert(r.deep_view() =~= Seq::<RowModel>::empty());
        assert(rv.take(0) =~= Seq::<RowModel>::empty());
    }
    let mut i: usize = 0;
    while i < rows.len()
        invariant
            i <= rv.len(),
            rv == rows.deep_view(),
            rows_sorted(r.deep_view()),
            r.deep_view().to_multiset() == spec_visible_rows(rv.take(i as int)).to_multiset(),
            forall|m: int|
                0 <= m < r.deep_view().len() ==> !spec_is_hidden(
                    (#[trigger] r.deep_view()[m]).name,
                ),
        decreases rv.len() - i,
    {
        let ghost done = spec_visible_rows(rv.take(i as int));
        let name = crate::walk::clone_name(&rows[i].name);
        proof {
            assert(name@ =~= rv[i as int].name);
        }
        if !crate::entry::is_hidden_name(&name) {
            let row = ListingRow {
                name,
                is_dir: rows[i].is_dir,
                size: rows[i].size,
                mtime: rows[i].mtime,
            };
            assert(row@ == rv[i as int]);
            let ghost before = r.deep_view();
            insert_sorted(&mut r, row);
            proof {
                lemma_visible_rows_snoc(rv, i as int);
                assert(done + seq![rv[i as int]] =~= done.push(rv[i as int]));
                done.to_multiset_ensures();
                assert(done.push(rv[i as int]).to_multiset() =~= done.to_multiset().insert(
                    rv[i as int],
                ));
                assert forall|m: int| 0 <= m < r.deep_view().len() implies !spec_is_hidden(
                    (#[trigger] r.deep_view()[m]).name,
                ) by {
                    if r.deep_view()[m] != rv[i as int] {
                        assert(before.contains(r.deep_view()[m]));
                        let w = choose|w: int|
                            0 <= w < before.len() && before[w] == r.deep_view()[m];
                        assert(!spec_is_hidden(before[w].name));
                    }
                }
            }
        } else {
            proof {
                lemma_visible_rows_snoc(rv, i as int);
                assert(done + Seq::<RowModel>::empty() =~= done);
            }
        }
        i += 1;
    }
    proof {
        assert(rv.take(rv.len() as int) =~= rv);
    }
    r
}

/// The listing of an entry: one row per visible child (a listed file
/// has none), hidden children excluded, sorted with directories first
/// and each group ordered by modification time. Exactly the visible
/// children are listed, each once.
pub fn list_entries(t: &FsTree) -> (r: Vec<ListingRow>)
    ensures
        rows_sorted(r.deep_view()),
        r.deep_view().to_multiset() == spec_listing(*t).to_multiset(),
        forall|i: int|
            0 <= i < r.deep_view().len() ==> !spec_is_hidden(
                (#[trigger] r.deep_view()[i]).name,
            ),
{
    broadcast use vstd::seq_lib::group_to_multiset_ensures;

    let mut r: Vec<ListingRow> = Vec::new();
    proof {
        assert(r.deep_view() =~= Seq::<RowModel>::empty());
    }
    match t {
        FsTree::File { .. } => {
        },
        FsTree::Dir { children, .. } => {
            let ghost cs = children@;
            proof {
                assert(cs.take(0) =~= Seq::<DirChild>::empty());
            }
            let mut i: usize = 0;
            while i < children.len()
                invariant
                    i <= cs.len(),
                    children@ == cs,
                    rows_sorted(r.deep_view()),
                    r.deep_view().to_multiset() == spec_rows(cs.take(i as int)).to_multiset(),
                    forall|m: int|
                        0 <= m < r.deep_view().len() ==> !spec_is_hidden(
                            (#[trigger] r.deep_view()[m]).name,
                        ),
                decreases cs.len() - i,
            {
                let c = &children[i];
                let ghost done = spec_rows(cs.take(i as int));
                if !crate::entry::is_hidden_name(&c.name) {
                    let row = match &c.tree {
                        FsTree::File { mtime, data } => ListingRow {
                            name: crate::walk::clone_name(&c.name),
                            is_dir: false,
                            size: data.len() as u64,
                            mtime: *mtime,
                        },
                        FsTree::Dir { mtime, .. } => ListingRow {
                            name: crate::walk::clone_name(&c.name),
                            is_dir: true,
                            size: 0,
                            mtime: *mtime,
                        },
                    };
                    assert(row@ == row_of(cs[i as int]));
                    let ghost before = r.deep_view();
                    insert_sorted(&mut r, row);
                    proof {
                        lemma_rows_snoc(cs, i as int);
                        assert(done + seq![row_of(cs[i as int])] =~= done.push(
                            row_of(cs[i as int]),
                        ));
                        done.to_multiset_ensures();
                        assert(done.push(row_of(cs[i as int])).to_multiset() =~= done.to_multiset()
                            .insert(row_of(cs[i as int])));
                        assert forall|m: int| 0 <= m < r.deep_view().len() implies !spec_is_hidden(
                            (#[trigger] r.deep_view()[m]).name,
                        ) by {
                            if r.deep_view()[m] != row@ {
                                assert(before.contains(r.deep_view()[m]));
                                let w = choose|w: int|
                                    0 <= w < before.len() && before[w] == r.deep_view()[m];
                                assert(!spec_is_hidden(before[w].name));
                            }
                        }
                    }
                } else {
                    proof {
                        lemma_rows_snoc(cs, i as int);
                        assert(done + Seq::<RowModel>::empty() =~= done);
                    }
                }
                i += 1;
            }
            proof {
                assert(cs.take(cs.len() as int) =~= cs);
            }
        },
    }
    r
}

} // verus!
