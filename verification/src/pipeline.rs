//! The archive export pipeline: validates a selection against the
//! served root, resolves and walks each selected entry, serializes the
//! entries into archive chunks, and drives the chunks into the bridge
//! from a dedicated worker, one bounded step at a time.
//!
//! The surrounding binary owns the loop: it calls [`Exporter::step`]
//! from the worker, waits when the bridge is full, and polls
//! [`crate::bridge::Bridge::pull`] from the consumer side.

use vstd::prelude::*;
use crate::bridge::{Bridge, SendOutcome};
use crate::entry::{spec_archive_name, spec_path_ok, spec_selection_path};
use crate::format::{spec_entry_bytes, spec_entry_ok, zeros};
use crate::tree::{path_visible, spec_lookup, FsTree};
use crate::walk::{spec_walk, ArchiveEntry, EntryModel};

verus! {

/// Why a selection was rejected before any worker started.
#[derive(Clone, Copy, Debug, PartialEq, Eq)]
pub enum SelectionError {
    /// Some selected path has a component that is empty, `.` or `..`:
    /// it is malformed or could escape the served root.
    InvalidPath,
}

/// The entries contributed by one selected path: nothing if the path
/// touches a hidden name or names no entry of the snapshot; otherwise
/// the walk of the entry it names.
pub open spec fn spec_selection_entries(t: FsTree, p: Seq<Seq<u8>>) -> Seq<EntryModel> {
    if !path_visible(p) {
        Seq::empty()
    } else {
        match spec_lookup(t, p) {
            None => Seq::empty(),
            Some(sub) => spec_walk(sub, p),
        }
    }
}

/// The entries of all selected paths, in selection order.
pub open spec fn spec_selections_entries(t: FsTree, sels: Seq<Seq<Seq<u8>>>) -> Seq<EntryModel>
    decreases sels.len(),
{
    if sels.len() == 0 {
        Seq::empty()
    } else {
        spec_selection_entries(t, sels[0]) + spec_selections_entries(t, sels.drop_first())
    }
}

/// The full entry list of a request: an empty selection means the
/// listed directory itself.
pub open spec fn spec_plan_entries(t: FsTree, sels: Seq<Seq<Seq<u8>>>) -> Seq<EntryModel> {
    if sels.len() == 0 {
        spec_walk(t, Seq::empty())
    } else {
        spec_selections_entries(t, sels)
    }
}

proof fn lemma_selections_concat(t: FsTree, s1: Seq<Seq<Seq<u8>>>, s2: Seq<Seq<Seq<u8>>>)
    ensures
        spec_selections_entries(t, s1 + s2) == spec_selections_entries(t, s1)
            + spec_selections_entries(t, s2),
    decreases s1.len(),
{
    if s1.len() == 0 {
        assert(s1 + s2 =~= s2);
        assert(spec_selections_entries(t, s1) + spec_selections_entries(t, s2)
            =~= spec_selections_entries(t, s2));
    } else {
        assert((s1 + s2).drop_first() =~= s1.drop_first() + s2);
        assert((s1 + s2)[0] == s1[0]);
        lemma_selections_concat(t, s1.drop_first(), s2);
        assert(spec_selections_entries(t, s1 + s2) =~= spec_selections_entries(t, s1)
            + spec_selections_entries(t, s2));
    }
}

proof fn lemma_selections_snoc(t: FsTree, sels: Seq<Seq<Seq<u8>>>, i: int)
    requires
        0 <= i < sels.len(),
    ensures
        spec_selections_entries(t, sels.take(i + 1)) == spec_selections_entries(t, sels.take(i))
            + spec_selection_entries(t, sels[i]),
{
    assert(sels.take(i + 1) =~= sels.take(i) + seq![sels[i]]);
    lemma_selections_concat(t, sels.take(i), seq![sels[i]]);
    let one = seq![sels[i]];
    assert(one.drop_first() =~= Seq::<Seq<Seq<u8>>>::empty());
    assert(spec_selections_entries(t, Seq::<Seq<Seq<u8>>>::empty()) == Seq::<EntryModel>::empty());
    assert(one[0] == sels[i]);
    assert(spec_selections_entries(t, one) == spec_selection_entries(t, sels[i])
        + Seq::<EntryModel>::empty());
    assert(spec_selection_entries(t, sels[i]) + Seq::<EntryModel>::empty() =~= spec_selection_entries(
        t,
        sels[i],
    ));
}

/// A validated, fully resolved request: the derived download name and
/// the entries the archive will carry, in stream order.
pub struct ArchivePlan {
    pub file_name: Vec<u8>,
    pub entries: Vec<ArchiveEntry>,
}

/// Validates the selection strings against the served root and
/// resolves them to the ordered entry list of the archive.
///
/// Fails exactly when some selection splits into components of which
/// one is empty, `.` or `..`; nothing is walked in that case. A valid
/// selection that names no entry, or touches a hidden name,
/// contributes nothing and does not fail the request.
pub fn plan_archive(tree: &FsTree, listing_leaf: &Vec<u8>, selections: &Vec<Vec<u8>>) -> (r: Result<
    ArchivePlan,
    SelectionError,
>)
    ensures
        (r is Err <==> exists|i: int|
            0 <= i < selections@.len() && !crate::entry::spec_selection_ok(
                #[trigger] selections.deep_view()[i],
            )),
        r matches Ok(plan) ==> {
            let sels = selections.deep_view().map_values(|s: Seq<u8>| spec_selection_path(s));
            &&& plan.file_name@ == spec_archive_name(listing_leaf@, sels)
            &&& plan.entries.deep_view() == spec_plan_entries(*tree, sels)
        },
{
    let ghost sv = selections.deep_view();
    let ghost sels = sv.map_values(|s: Seq<u8>| spec_selection_path(s));
    let mut parsed: Vec<Vec<Vec<u8>>> = Vec::new();
    let mut i: usize = 0;
    while i < selections.len()
        invariant
            i <= selections@.len(),
            sv == selections.deep_view(),
            sels == sv.map_values(|s: Seq<u8>| spec_selection_path(s)),
            parsed@.len() == i,
            forall|k: int|
                0 <= k < i ==> (#[trigger] parsed.deep_view()[k]) == spec_selection_path(sv[k])
                    && spec_path_ok(parsed.deep_view()[k]),
        decreases selections@.len() - i,
    {
        proof {
            assert(selections@[i as int]@ =~= sv[i as int]);
        }
        let p = crate::entry::selection_path(&selections[i]);
        if !crate::entry::path_ok(&p) {
            assert(!spec_path_ok(spec_selection_path(sv[i as int])));
            assert(!spec_path_ok(spec_selection_path(selections.deep_view()[i as int])));
            return Err(SelectionError::InvalidPath);
        }
        let ghost pd = parsed.deep_view();
        parsed.push(p);
        proof {
            assert(parsed.deep_view() =~= pd.push(spec_selection_path(sv[i as int])));
        }
        i += 1;
    }
    assert(forall|k: int| 0 <= k < sels.len() ==> (#[trigger] sels[k]) == spec_selection_path(sv[k]));
    assert(parsed.deep_view() =~= sels);
    assert(forall|k: int| 0 <= k < sels.len() ==> spec_path_ok(#[trigger] sels[k]));
    assert forall|k: int| 0 <= k < selections@.len() implies spec_path_ok(
        spec_selection_path(#[trigger] selections.deep_view()[k]),
    ) by {
        assert(sels[k] == spec_selection_path(sv[k]));
        assert(spec_path_ok(sels[k]));
    }
    let file_name = crate::entry::archive_name(listing_leaf, &parsed);
    let mut entries: Vec<ArchiveEntry> = Vec::new();
    if parsed.len() == 0 {
        let root_prefix: Vec<Vec<u8>> = Vec::new();
        crate::walk::walk(tree, &root_prefix, &mut entries);
        assert(root_prefix.deep_view() =~= Seq::<Seq<u8>>::empty());
        assert(entries.deep_view() =~= spec_plan_entries(*tree, sels));
    } else {
        let mut k: usize = 0;
        while k < parsed.len()
            invariant
                k <= parsed@.len(),
                parsed.deep_view() == sels,
                sels.len() == parsed@.len(),
                entries.deep_view() == spec_selections_entries(*tree, sels.take(k as int)),
            decreases parsed@.len() - k,
        {
            let sel = &parsed[k];
            assert(sel.deep_view() =~= sels[k as int]);
            let ghost done = entries.deep_view();
            if crate::tree::path_is_visible(sel) {
                match crate::tree::lookup_subtree(tree, sel) {
                    Option::Some(sub) => {
                        crate::walk::walk(sub, sel, &mut entries);
                        assert(entries.deep_view() =~= done + spec_selection_entries(
                            *tree,
                            sels[k as int],
                        ));
                    },
                    Option::None => {
                        assert(entries.deep_view() =~= done + spec_selection_entries(
                            *tree,
                            sels[k as int],
                        ));
                    },
                }
            } else {
                assert(entries.deep_view() =~= done + spec_selection_entries(
                    *tree,
                    sels[k as int],
                ));
            }
            proof {
                lemma_selections_snoc(*tree, sels, k as int);
            }
            k += 1;
        }
        assert(sels.take(parsed@.len() as int) =~= sels);
        assert(entries.deep_view() =~= spec_plan_entries(*tree, sels));
    }
    Ok(ArchivePlan { file_name, entries })
}

/// The serialized records of the entries the format can carry, one
/// chunk per entry; an entry the format cannot carry is skipped, as a
/// single bad file must not abort the whole archive.
pub open spec fn spec_chunks_of(es: Seq<EntryModel>) -> Seq<Seq<u8>>
    decreases es.len(),
{
    if es.len() == 0 {
        Seq::empty()
    } else {
        let head = if spec_entry_ok(es[0]) {
            seq![spec_entry_bytes(es[0])]
        } else {
            Seq::<Seq<u8>>::empty()
        };
        head + spec_chunks_of(es.drop_first())
    }
}

/// The chunk sequence of the whole archive: one record per carried
/// entry, then the end-of-archive marker.
pub open spec fn spec_chunks(es: Seq<EntryModel>) -> Seq<Seq<u8>> {
    spec_chunks_of(es) + seq![zeros(1024)]
}

proof fn lemma_chunks_concat(e1: Seq<EntryModel>, e2: Seq<EntryModel>)
    ensures
        spec_chunks_of(e1 + e2) == spec_chunks_of(e1) + spec_chunks_of(e2),
    decreases e1.len(),
{
    if e1.len() == 0 {
        assert(e1 + e2 =~= e2);
        assert(spec_chunks_of(e1) + spec_chunks_of(e2) =~= spec_chunks_of(e2));
    } else {
        assert((e1 + e2).drop_first() =~= e1.drop_first() + e2);
        assert((e1 + e2)[0] == e1[0]);
        lemma_chunks_concat(e1.drop_first(), e2);
        assert(spec_chunks_of(e1 + e2) =~= spec_chunks_of(e1) + spec_chunks_of(e2));
    }
}

proof fn lemma_chunks_snoc(es: Seq<EntryModel>, i: int)
    requires
        0 <= i < es.len(),
    ensures
        spec_chunks_of(es.take(i + 1)) == spec_chunks_of(es.take(i)) + (if spec_entry_ok(es[i]) {
            seq![spec_entry_bytes(es[i])]
        } else {
            Seq::<Seq<u8>>::empty()
        }),
{
    assert(es.take(i + 1) =~= es.take(i) + seq![es[i]]);
    lemma_chunks_concat(es.take(i), seq![es[i]]);
    let one = seq![es[i]];
    assert(one.drop_first() =~= Seq::<EntryModel>::empty());
    assert(spec_chunks_of(Seq::<EntryModel>::empty()) == Seq::<Seq<u8>>::empty());
    assert(one[0] == es[i]);
    let head = if spec_entry_ok(es[i]) {
        seq![spec_entry_bytes(es[i])]
    } else {
        Seq::<Seq<u8>>::empty()
    };
    assert(spec_chunks_of(one) == head + Seq::<Seq<u8>>::empty());
    assert(head + Seq::<Seq<u8>>::empty() =~= head);
}

/// Serializes the entry list into the archive's chunk sequence:
/// one record per entry the format carries, and the end-of-archive
/// marker last. FIFO delivery of exactly these chunks reproduces the
/// archive byte for byte.
pub fn archive_chunks(entries: &Vec<ArchiveEntry>) -> (r: Vec<Vec<u8>>)
    ensures
        r.deep_view() == spec_chunks(entries.deep_view()),
{
    let ghost ev = entries.deep_view();
    let mut chunks: Vec<Vec<u8>> = Vec::new();
    proof {
        assert(chunks.deep_view() =~= Seq::<Seq<u8>>::empty());
        assert(ev.take(0) =~= Seq::<EntryModel>::empty());
    }
    let mut i: usize = 0;
    while i < entries.len()
        invariant
            i <= entries@.len(),
            ev == entries.deep_view(),
            chunks.deep_view() == spec_chunks_of(ev.take(i as int)),
        decreases entries@.len() - i,
    {
        let ghost done = chunks.deep_view();
        match crate::format::serialize_entry(&entries[i]) {
            Result::Ok(b) => {
                proof {
                    assert(b.deep_view() =~= b@);
                }
                chunks.push(b);
                proof {
                    assert(chunks.deep_view() =~= done.push(spec_entry_bytes(ev[i as int])));
                }
            },
            Result::Err(_) => {
            },
        }
        proof {
            lemma_chunks_snoc(ev, i as int);
        }
        i += 1;
    }
    assert(ev.take(entries@.len() as int) =~= ev);
    let end = crate::format::end_blocks();
    let ghost done = chunks.deep_view();
    proof {
        assert(end.deep_view() =~= zeros(1024));
    }
    chunks.push(end);
    proof {
        assert(chunks.deep_view() =~= done.push(zeros(1024)));
        assert(done.push(zeros(1024)) =~= spec_chunks_of(ev) + seq![zeros(1024)]);
    }
    chunks
}

/// For entries the format carries, the chunk sequence laid end to end
/// is exactly the serialized archive: FIFO delivery of the chunks
/// reproduces the archive byte stream, byte for byte.
pub proof fn lemma_chunks_flatten(es: Seq<EntryModel>)
    requires
        forall|i: int| 0 <= i < es.len() ==> spec_entry_ok(#[trigger] es[i]),
    ensures
        spec_chunks(es).flatten() == crate::format::spec_stream(es),
    decreases es.len(),
{
    let cs = spec_chunks(es);
    if es.len() == 0 {
        assert(cs =~= seq![zeros(1024)]);
        assert(cs.drop_first() =~= Seq::<Seq<u8>>::empty());
        assert(cs.first() == zeros(1024));
        assert(Seq::<Seq<u8>>::empty().flatten() == Seq::<u8>::empty());
        assert(cs.flatten() == cs.first() + cs.drop_first().flatten());
        assert(zeros(1024) + Seq::<u8>::empty() =~= zeros(1024));
        assert(crate::format::spec_stream(es) =~= zeros(1024));
    } else {
        assert forall|i: int| 0 <= i < es.drop_first().len() implies spec_entry_ok(
            #[trigger] es.drop_first()[i],
        ) by {
            assert(es.drop_first()[i] == es[i + 1]);
        }
        lemma_chunks_flatten(es.drop_first());
        assert(spec_entry_ok(es[0]));
        assert(cs[0] == spec_entry_bytes(es[0]));
        assert(cs.drop_first() =~= spec_chunks(es.drop_first()));
        assert(cs.flatten() == cs.first() + cs.drop_first().flatten());
        assert(crate::format::spec_stream(es) =~= spec_entry_bytes(es[0])
            + crate::format::spec_stream(es.drop_first()));
        assert(cs.flatten() =~= crate::format::spec_stream(es));
    }
}

/// How one worker step went.
#[derive(Clone, Copy, Debug, PartialEq, Eq)]
pub enum StepOutcome {
    /// A chunk was handed to the bridge.
    Progress,
    /// The bridge is full; wait for the consumer, then retry.
    Blocked,
    /// Everything was handed over and the bridge is closed.
    Finished,
    /// The consumer is gone; the worker stopped without reading more.
    Aborted,
}

/// The per-request worker: feeds the serialized chunks into the
/// bridge in order, one bounded step at a time, and stops the moment
/// the consumer disconnects.
pub struct Exporter {
    pub chunks: Vec<Vec<u8>>,
    pub next: usize,
    pub done: bool,
    pub aborted: bool,
}

impl Exporter {
    /// Positions are within bounds.
    pub open spec fn wf(self) -> bool {
        self.next <= self.chunks@.len()
    }

    /// The exporter and the bridge agree: what the bridge has accepted
    /// is exactly the chunks handed over so far, in order.
    pub open spec fn linked(self, b: Bridge) -> bool {
        &&& self.wf()
        &&& b.sent@ == self.chunks.deep_view().take(self.next as int)
    }

    /// A worker holding the archive's chunks, nothing sent yet.
    pub fn new(chunks: Vec<Vec<u8>>) -> (e: Exporter)
        ensures
            e.chunks == chunks,
            e.next == 0,
            !e.done,
            !e.aborted,
            e.wf(),
    {
        Exporter { chunks, next: 0, done: false, aborted: false }
    }

    /// One worker step against the bridge.
    ///
    /// Hands over the next chunk if there is room; reports `Blocked`
    /// without any effect while the bridge is full; closes the bridge
    /// and reports `Finished` when every chunk has been handed over;
    /// and the moment the consumer is observed gone, reports `Aborted`
    /// and stops for good — no further chunk is read or sent.
    pub fn step(&mut self, b: &mut Bridge) -> (r: StepOutcome)
        requires
            old(self).linked(*old(b)),
            !old(self).done,
            !old(self).aborted,
            old(b).inv(),
            !old(b).producer_done,
            !old(b).producer_failed,
        ensures
            final(self).linked(*final(b)),
            final(b).inv(),
            final(self).chunks == old(self).chunks,
            final(b).capacity == old(b).capacity,
            final(b).consumer_gone == old(b).consumer_gone,
            final(b).delivered == old(b).delivered,
            final(b).producer_failed == old(b).producer_failed,
            old(self).next == old(self).chunks@.len() ==> r == StepOutcome::Finished
                && final(self).done && final(b).producer_done
                && final(self).next == old(self).next && final(b).sent == old(b).sent,
            old(self).next < old(self).chunks@.len() && old(b).consumer_gone ==> r
                == StepOutcome::Aborted && final(self).aborted && final(self).next == old(self).next
                && *final(b) == *old(b),
            old(self).next < old(self).chunks@.len() && !old(b).consumer_gone
                && old(b).queue@.len() >= old(b).capacity ==> r == StepOutcome::Blocked
                && *final(self) == *old(self) && *final(b) == *old(b),
            old(self).next < old(self).chunks@.len() && !old(b).consumer_gone
                && old(b).queue@.len() < old(b).capacity ==> r == StepOutcome::Progress
                && final(self).next == old(self).next + 1 && !final(self).done
                && !final(self).aborted && !final(b).producer_done
                && final(b).sent@ == old(b).sent@.push(
                old(self).chunks.deep_view()[old(self).next as int]),
    {
        if self.next == self.chunks.len() {
            b.close();
            self.done = true;
            StepOutcome::Finished
        } else {
            let chunk = crate::walk::clone_data(&self.chunks[self.next]);
            proof {
                assert(chunk@ =~= self.chunks.deep_view()[self.next as int]);
            }
            match b.try_send(chunk) {
                SendOutcome::Gone => {
                    self.aborted = true;
                    StepOutcome::Aborted
                },
                SendOutcome::Full => StepOutcome::Blocked,
                SendOutcome::Sent => {
                    proof {
                        assert(self.chunks.deep_view().take(self.next + 1)
                            =~= self.chunks.deep_view().take(self.next as int).push(
                            self.chunks.deep_view()[self.next as int],
                        ));
                    }
                    self.next += 1;
                    StepOutcome::Progress
                },
            }
        }
    }
}

/// A live export, ready to run: the derived download name, the worker
/// holding the serialized chunks, and the fresh bridge between the
/// worker and the consumer.
pub struct Export {
    pub file_name: Vec<u8>,
    pub exporter: Exporter,
    pub bridge: Bridge,
}

/// Builds the whole export for one request: validates the selection,
/// resolves and walks it, serializes the entries into chunks, and
/// pairs a fresh worker with a fresh bridge of the given capacity.
/// The caller runs the worker (`Exporter::step`) on one side and
/// pulls the response body (`Bridge::pull`) on the other; exactly one
/// worker serves each request.
///
/// Fails exactly when the selection is invalid, before any work runs.
pub fn start_export(
    tree: &FsTree,
    listing_leaf: &Vec<u8>,
    selections: &Vec<Vec<u8>>,
    capacity: usize,
) -> (r: Result<Export, SelectionError>)
    requires
        capacity >= 1,
    ensures
        (r is Err <==> exists|i: int|
            0 <= i < selections@.len() && !crate::entry::spec_selection_ok(
                #[trigger] selections.deep_view()[i],
            )),
        r matches Ok(ex) ==> {
            let sels = selections.deep_view().map_values(|s: Seq<u8>| spec_selection_path(s));
            &&& ex.file_name@ == spec_archive_name(listing_leaf@, sels)
            &&& ex.exporter.chunks.deep_view() == spec_chunks(spec_plan_entries(*tree, sels))
            &&& ex.exporter.next == 0 && !ex.exporter.done && !ex.exporter.aborted
            &&& ex.bridge.inv() && ex.bridge.capacity == capacity
            &&& !ex.bridge.producer_done && !ex.bridge.producer_failed
                && !ex.bridge.consumer_gone
            &&& ex.exporter.linked(ex.bridge)
            &&& ex.bridge.delivered@ == Seq::<Seq<u8>>::empty()
        },
{
    let plan = match plan_archive(tree, listing_leaf, selections) {
        Ok(p) => p,
        Err(e) => {
            return Err(e);
        },
    };
    let chunks = archive_chunks(&plan.entries);
    let exporter = Exporter::new(chunks);
    let bridge = Bridge::new(capacity);
    assert(exporter.chunks.deep_view().take(0) =~= Seq::<Seq<u8>>::empty());
    Ok(Export { file_name: plan.file_name, exporter, bridge })
}

/// The archive of a whole listed directory (the empty selection)
/// contains each visible reachable entry exactly once, contains no
/// hidden component anywhere, and reports every directory before its
/// contents, with every intermediate directory present.
pub proof fn lemma_root_plan_props(t: FsTree)
    requires
        crate::tree::tree_wf(t),
    ensures
        ({
            let w = spec_plan_entries(t, Seq::empty());
            &&& crate::walk::paths_distinct(w)
            &&& crate::walk::parents_first(w)
            &&& crate::walk::hidden_free_below(w, 0)
            &&& crate::walk::ancestors_closed(w, 0)
            &&& crate::walk::all_resolve(w, t, Seq::empty())
            &&& forall|p: Seq<Seq<u8>>|
                #![trigger crate::tree::spec_lookup(t, p)]
                p.len() > 0 && crate::tree::path_visible(p) && crate::tree::spec_lookup(t, p)
                    is Some ==> w.contains(
                    crate::walk::node_entry(crate::tree::spec_lookup(t, p)->Some_0, p),
                )
        }),
{
    let w = spec_plan_entries(t, Seq::empty());
    crate::walk::lemma_walk_props(t, Seq::empty());
    crate::walk::lemma_walk_sound(t, Seq::empty());
    assert forall|p: Seq<Seq<u8>>|
        #![trigger crate::tree::spec_lookup(t, p)]
        p.len() > 0 && crate::tree::path_visible(p) && crate::tree::spec_lookup(t, p)
            is Some implies w.contains(
        crate::walk::node_entry(crate::tree::spec_lookup(t, p)->Some_0, p),
    ) by {
        crate::walk::lemma_walk_complete(t, Seq::empty(), p);
        assert(Seq::<Seq<u8>>::empty() + p =~= p);
    }
}

/// The entries of one selected path: each path appears at most once,
/// extends the selection, contains no hidden component at all — a
/// hidden entry or descendant never reaches an archive, whatever the
/// selection — and directories precede their contents.
pub proof fn lemma_selection_entries_props(t: FsTree, p: Seq<Seq<u8>>)
    requires
        crate::tree::tree_wf(t),
    ensures
        ({
            let w = spec_selection_entries(t, p);
            &&& crate::walk::within_prefix(w, p)
            &&& crate::walk::paths_distinct(w)
            &&& crate::walk::parents_first(w)
            &&& crate::walk::hidden_free_below(w, 0)
            &&& crate::walk::ancestors_closed(w, p.len() as int)
            &&& path_visible(p) && spec_lookup(t, p) is Some ==> crate::walk::all_resolve(
                w,
                spec_lookup(t, p)->Some_0,
                p,
            )
        }),
{
    let w = spec_selection_entries(t, p);
    if path_visible(p) && spec_lookup(t, p) is Some {
        let sub = spec_lookup(t, p)->Some_0;
        crate::tree::lemma_lookup_wf(t, p);
        crate::walk::lemma_walk_props(sub, p);
        crate::walk::lemma_walk_sound(sub, p);
        assert(crate::walk::hidden_free_below(w, 0)) by {
            assert forall|i: int, k: int|
                #![trigger w[i].path[k]]
                0 <= i < w.len() && 0 <= k < w[i].path.len()
                implies !crate::entry::spec_is_hidden(w[i].path[k]) by {
                if k < p.len() {
                    assert(w[i].path.take(p.len() as int) == p);
                    assert(w[i].path.take(p.len() as int)[k] == w[i].path[k]);
                    assert(!crate::entry::spec_is_hidden(p[k]));
                }
            }
        }
    }
}

/// Backpressure, end to end: while the consumer is attached, the
/// worker has handed over at most `capacity` chunks beyond what the
/// consumer has pulled — a consumer that stops pulling stops the
/// worker within one buffer of chunks.
pub proof fn lemma_worker_backpressure(e: Exporter, b: Bridge)
    requires
        e.linked(b),
        b.inv(),
        !b.consumer_gone,
    ensures
        e.next <= b.delivered@.len() + b.capacity,
{
    assert(b.sent@.len() == e.next);
}

/// What the consumer has received is, chunk for chunk and in order, a
/// prefix of the serialized archive.
pub proof fn lemma_delivered_prefix(e: Exporter, b: Bridge)
    requires
        e.linked(b),
        b.inv(),
        !b.consumer_gone,
    ensures
        b.delivered@.is_prefix_of(e.chunks.deep_view()),
{
    assert(b.sent@.len() == e.next);
    assert(b.delivered@.len() <= b.sent@.len());
    assert forall|k: int| 0 <= k < b.delivered@.len() implies b.delivered@[k]
        == e.chunks.deep_view()[k] by {
        assert(b.delivered@[k] == b.sent@[k]);
        assert(b.sent@[k] == e.chunks.deep_view().take(e.next as int)[k]);
    }
    assert(b.delivered@ =~= e.chunks.deep_view().subrange(0, b.delivered@.len() as int));
}

} // verus!
