use vstd::prelude::*;

use crate::errors::CycleError;
use crate::errors::Error;
use crate::errors::ErrorView;
use crate::graph::entry_lookup;
use crate::graph::has_key;
use crate::graph::keys_set;
use crate::graph::lemma_has_key_keys_set;
use crate::graph::lemma_keys_set_finite;
use crate::graph::lemma_no_pending_all_loaded;
use crate::graph::lemma_lookup_witness;
use crate::graph::pending_count;
use crate::graph::table_views;
use crate::graph::table_wf;
use crate::graph::LoadState;
use crate::graph::Parsed;
use crate::graph::ParsedView;
use crate::graph::TableView;
use crate::node::ChunkView;
use crate::node::NodeChunk;
use crate::node::NodeView;
use crate::node::ParsedNode;
use crate::util::clone_bytes;
use crate::util::contains_bytes;
use crate::util::pair_views;
use crate::util::seq_views;

verus! {

// The flattening writer: an iterative depth-first replay of the loaded
// graph in document order.  Text chunks stream to the output sink as
// source-mapped fragments; an include chunk descends into its target
// unless that target is once-guarded and already entered; one newline is
// emitted each time control returns from an included file to its
// includer.  The replay refuses, as a cycle error, any descent into a
// file that is still open further up the descent and that no once-guard
// suppressed.  When no file of the cycle carries a guard, such a descent
// would recurse forever; when a guard stands elsewhere in the cycle, a
// replay that repeated the re-entered file would eventually stop at the
// guard, but the engine refuses that re-entry all the same and reports
// the cycle, one uniform rule for both.  After a complete replay every
// file of the graph is reported to the tracking sink exactly once,
// whether or not its text was emitted.

/// A text fragment with its provenance: the bytes, the canonical path of
/// the file they come from, and their byte range in that file.
pub struct SourceMappedChunk<'a> {
    pub text: &'a [u8],
    pub source_path: &'a Vec<u8>,
    pub source_range: (usize, usize),
}

impl<'a> SourceMappedChunk<'a> {
    /// The fragment's bytes.
    pub fn text(&self) -> (r: &'a [u8])
        ensures
            r == self.text,
    {
        self.text
    }

    /// The canonical path of the originating file.
    pub fn source_path(&self) -> (r: &'a Vec<u8>)
        ensures
            r == self.source_path,
    {
        self.source_path
    }

    /// The fragment's byte range in the originating file.
    pub fn source_range(&self) -> (r: (usize, usize))
        ensures
            r == self.source_range,
    {
        self.source_range
    }
}

/// Where flattened text goes.  A sink's `contents` is the text it has
/// taken so far; both methods append to it, one with provenance and one
/// without.  A source-mapped fragment arrives internally consistent: its
/// text spans exactly its byte range.  (That the writer fills `text`,
/// `source_path` and `source_range` from the owning node is stated over
/// the emitted stream by `spec_flatten_events` and
/// `lemma_flatten_out_decomposes`; this trait itself abstracts both
/// methods to the one byte stream `contents`.)
pub trait OutputSink {
    spec fn contents(&self) -> Seq<u8>;

    fn sink(&mut self, chunk: &[u8])
        ensures
            final(self).contents() == old(self).contents() + chunk@,
    ;

    fn sink_source_mapped(&mut self, source_mapped_chunk: SourceMappedChunk)
        requires
            source_mapped_chunk.source_range.0 <= source_mapped_chunk.source_range.1,
            source_mapped_chunk.text@.len() == source_mapped_chunk.source_range.1
                - source_mapped_chunk.source_range.0,
        ensures
            final(self).contents() == old(self).contents() + source_mapped_chunk.text@,
    ;
}

/// A plain byte buffer is the minimal sink: it concatenates everything.
impl OutputSink for Vec<u8> {
    open spec fn contents(&self) -> Seq<u8> {
        self@
    }

    fn sink(&mut self, chunk: &[u8]) {
        self.extend_from_slice(chunk);
        proof {
            assert(self@ =~= old(self)@ + chunk@);
        }
    }

    fn sink_source_mapped(&mut self, source_mapped_chunk: SourceMappedChunk) {
        self.extend_from_slice(source_mapped_chunk.text);
        proof {
            assert(self@ =~= old(self)@ + source_mapped_chunk.text@);
        }
    }
}

/// Where the set of consumed files is reported, once per file, for
/// build-dependency tracking.
pub trait SourceTracker {
    spec fn recorded(&self) -> Seq<(Seq<u8>, Seq<u8>)>;

    fn track(&mut self, path: &Vec<u8>, source: &Vec<u8>)
        ensures
            final(self).recorded() == old(self).recorded().push((path@, source@)),
    ;
}

/// A list of (path, text) pairs is the minimal tracker.
impl SourceTracker for Vec<(Vec<u8>, Vec<u8>)> {
    open spec fn recorded(&self) -> Seq<(Seq<u8>, Seq<u8>)> {
        pair_views(self@)
    }

    fn track(&mut self, path: &Vec<u8>, source: &Vec<u8>) {
        let p = clone_bytes(path);
        let s = clone_bytes(source);
        let ghost pair = (p, s);
        self.push((p, s));
        proof {
            crate::util::lemma_pair_views_push(old(self)@, pair);
        }
    }
}

/// What replaying one node from chunk `i` on emits and marks.  `out` is
/// the emitted bytes; `entered` the keys marked entered after the replay;
/// `cycle` the key whose unguarded re-entry stopped the replay, if any, in
/// which case `out` holds what was emitted up to that point.
pub struct FlattenRes {
    pub out: Seq<u8>,
    pub entered: Set<Seq<u8>>,
    pub cycle: Option<Seq<u8>>,
}

/// The replay of one node's chunks from `i` on: text chunks emit their
/// bytes; an include chunk descends into its target with the target
/// marked entered, unless the target is once-guarded and already entered
/// (skipped) or still open on the descent (refused as a cycle, guarded
/// elsewhere or not); one newline follows each completed descent.
pub open spec fn flatten_node(
    t: TableView,
    nv: NodeView,
    i: int,
    entered: Set<Seq<u8>>,
    on_stack: Set<Seq<u8>>,
) -> FlattenRes
    decreases (keys_set(t).difference(on_stack)).len(), nv.chunks.len() - i,
        when 0 <= i
        via flatten_node_decreases
{
    if i >= nv.chunks.len() {
        FlattenRes { out: Seq::empty(), entered, cycle: None }
    } else {
        match nv.chunks[i] {
            ChunkView::Text { start, end } => {
                let rest = flatten_node(t, nv, i + 1, entered, on_stack);
                FlattenRes {
                    out: nv.source.subrange(start, end) + rest.out,
                    entered: rest.entered,
                    cycle: rest.cycle,
                }
            },
            ChunkView::Inc { target } => {
                match entry_lookup(t, target) {
                    Some(st) => match st {
                        Some(tn) => {
                            if tn.once && entered.contains(target) {
                                flatten_node(t, nv, i + 1, entered, on_stack)
                            } else if on_stack.contains(target) {
                                FlattenRes { out: Seq::empty(), entered, cycle: Some(target) }
                            } else {
                                let sub = flatten_node(
                                    t,
                                    tn,
                                    0,
                                    entered.insert(target),
                                    on_stack.insert(target),
                                );
                                if sub.cycle is Some {
                                    sub
                                } else {
                                    let rest = flatten_node(
                                        t,
                                        nv,
                                        i + 1,
                                        sub.entered,
                                        on_stack,
                                    );
                                    FlattenRes {
                                        out: sub.out + seq![10u8] + rest.out,
                                        entered: rest.entered,
                                        cycle: rest.cycle,
                                    }
                                }
                            }
                        },
                        None => flatten_node(t, nv, i + 1, entered, on_stack),
                    },
                    None => flatten_node(t, nv, i + 1, entered, on_stack),
                }
            },
        }
    }
}

#[via_fn]
proof fn flatten_node_decreases(
    t: TableView,
    nv: NodeView,
    i: int,
    entered: Set<Seq<u8>>,
    on_stack: Set<Seq<u8>>,
) {
    lemma_keys_set_finite(t);
    vstd::set_lib::lemma_len_subset(keys_set(t).difference(on_stack), keys_set(t));
    if 0 <= i < nv.chunks.len() {
        match nv.chunks[i] {
            ChunkView::Inc { target } => {
                match entry_lookup(t, target) {
                    Some(st) => match st {
                        Some(tn) => {
                            if !(tn.once && entered.contains(target)) && !on_stack.contains(
                                target,
                            ) {
                                lemma_has_key_keys_set(t, target);
                                let d = keys_set(t).difference(on_stack);
                                let d2 = keys_set(t).difference(on_stack.insert(target));
                                assert(d2 =~= d.remove(target));
                                assert(d.contains(target));
                                vstd::set_lib::lemma_len_subset(d2, keys_set(t));
                                assert(d.remove(target).len() == d.len() - 1);
                            }
                        },
                        None => {},
                    },
                    None => {},
                }
            },
            ChunkView::Text { .. } => {},
        }
    }
}

/// What replaying a whole graph from its entry emits: the entry is opened
/// with itself on the descent, and marked entered when it carries a
/// once-guard.
pub open spec fn spec_flatten(pv: ParsedView) -> FlattenRes {
    match pv.node_at(pv.root) {
        Some(rootn) => {
            let entered0: Set<Seq<u8>> = if rootn.once {
                Set::empty().insert(pv.root)
            } else {
                Set::empty()
            };
            flatten_node(pv.entries, rootn, 0, entered0, Set::empty().insert(pv.root))
        },
        None => FlattenRes { out: Seq::empty(), entered: Set::empty(), cycle: None },
    }
}

/// What the tracking sink receives after a complete replay: every file of
/// the graph, in table order, with its full text.
pub open spec fn track_list(t: TableView) -> Seq<(Seq<u8>, Seq<u8>)> {
    t.map_values(|e: (Seq<u8>, Option<NodeView>)| (e.0, e.1->Some_0.source))
}

/// One fragment a replay hands the sink, with its provenance: a
/// source-mapped text chunk of a named node, or the single newline
/// inserted when control returns from an included file.
pub enum EventView {
    Mapped { path: Seq<u8>, start: int, end: int },
    Newline,
}

/// The bytes an event stands for, read back from the table.
pub open spec fn event_bytes(t: TableView, e: EventView) -> Seq<u8> {
    match e {
        EventView::Mapped { path, start, end } => match entry_lookup(t, path) {
            Some(st) => match st {
                Some(nv) => nv.source.subrange(start, end),
                None => Seq::empty(),
            },
            None => Seq::empty(),
        },
        EventView::Newline => seq![10u8],
    }
}

/// The bytes a whole event stream stands for.
pub open spec fn events_bytes(t: TableView, es: Seq<EventView>) -> Seq<u8>
    decreases es.len(),
{
    if es.len() == 0 {
        Seq::empty()
    } else {
        event_bytes(t, es[0]) + events_bytes(t, es.drop_first())
    }
}

/// The fragments a replay of one node from chunk `i` hands the sink, in
/// delivery order: one `Mapped` fragment per text chunk, carrying the
/// owning node's canonical path and the chunk's byte range, and one
/// `Newline` per completed descent.
pub open spec fn flatten_events(
    t: TableView,
    nv: NodeView,
    i: int,
    entered: Set<Seq<u8>>,
    on_stack: Set<Seq<u8>>,
) -> Seq<EventView>
    decreases (keys_set(t).difference(on_stack)).len(), nv.chunks.len() - i,
        when 0 <= i
        via flatten_events_decreases
{
    if i >= nv.chunks.len() {
        Seq::empty()
    } else {
        match nv.chunks[i] {
            ChunkView::Text { start, end } => seq![
                EventView::Mapped { path: nv.path, start, end },
            ] + flatten_events(t, nv, i + 1, entered, on_stack),
            ChunkView::Inc { target } => {
                match entry_lookup(t, target) {
                    Some(st) => match st {
                        Some(tn) => {
                            if tn.once && entered.contains(target) {
                                flatten_events(t, nv, i + 1, entered, on_stack)
                            } else if on_stack.contains(target) {
                                Seq::empty()
                            } else {
                                let sub = flatten_node(
                                    t,
                                    tn,
                                    0,
                                    entered.insert(target),
                                    on_stack.insert(target),
                                );
                                let sube = flatten_events(
                                    t,
                                    tn,
                                    0,
                                    entered.insert(target),
                                    on_stack.insert(target),
                                );
                                if sub.cycle is Some {
                                    sube
                                } else {
                                    sube + seq![EventView::Newline] + flatten_events(
                                        t,
                                        nv,
                                        i + 1,
                                        sub.entered,
                                        on_stack,
                                    )
                                }
                            }
                        },
                        None => flatten_events(t, nv, i + 1, entered, on_stack),
                    },
                    None => flatten_events(t, nv, i + 1, entered, on_stack),
                }
            },
        }
    }
}

#[via_fn]
proof fn flatten_events_decreases(
    t: TableView,
    nv: NodeView,
    i: int,
    entered: Set<Seq<u8>>,
    on_stack: Set<Seq<u8>>,
) {
    lemma_keys_set_finite(t);
    vstd::set_lib::lemma_len_subset(keys_set(t).difference(on_stack), keys_set(t));
    if 0 <= i < nv.chunks.len() {
        match nv.chunks[i] {
            ChunkView::Inc { target } => {
                match entry_lookup(t, target) {
                    Some(st) => match st {
                        Some(tn) => {
                            if !(tn.once && entered.contains(target)) && !on_stack.contains(
                                target,
                            ) {
                                lemma_has_key_keys_set(t, target);
                                let d = keys_set(t).difference(on_stack);
                                let d2 = keys_set(t).difference(on_stack.insert(target));
                                assert(d2 =~= d.remove(target));
                                assert(d.contains(target));
                                vstd::set_lib::lemma_len_subset(d2, keys_set(t));
                            }
                        },
                        None => {},
                    },
                    None => {},
                }
            },
            ChunkView::Text { .. } => {},
        }
    }
}

proof fn lemma_events_bytes_concat(t: TableView, a: Seq<EventView>, b: Seq<EventView>)
    ensures
        events_bytes(t, a + b) == events_bytes(t, a) + events_bytes(t, b),
    decreases a.len(),
{
    if a.len() == 0 {
        assert(a + b =~= b);
        assert(events_bytes(t, a) + events_bytes(t, b) =~= events_bytes(t, b));
    } else {
        assert((a + b).drop_first() =~= a.drop_first() + b);
        lemma_events_bytes_concat(t, a.drop_first(), b);
        assert(events_bytes(t, a)[0] == events_bytes(t, a)[0]);
        assert(event_bytes(t, (a + b)[0]) + (events_bytes(t, a.drop_first()) + events_bytes(t, b))
            =~= (event_bytes(t, a[0]) + events_bytes(t, a.drop_first())) + events_bytes(t, b));
    }
}

/// An event is a true fragment: its path names a loaded node of the
/// table and its range lies within that node's source.
pub open spec fn event_true(t: TableView, e: EventView) -> bool {
    match e {
        EventView::Mapped { path, start, end } => {
            &&& entry_lookup(t, path) is Some
            &&& entry_lookup(t, path)->Some_0 is Some
            &&& 0 <= start <= end <= entry_lookup(t, path)->Some_0->Some_0.source.len()
        },
        EventView::Newline => true,
    }
}

/// The replayed bytes of one node decompose into its event stream, each
/// event a true fragment of a loaded node.
proof fn lemma_flatten_events_decompose(
    t: TableView,
    nv: NodeView,
    i: int,
    entered: Set<Seq<u8>>,
    on_stack: Set<Seq<u8>>,
)
    requires
        0 <= i,
        table_wf(t),
        pending_count(t) == 0,
        entry_lookup(t, nv.path) == Some(Some(nv)),
    ensures
        ({
            let fr = flatten_node(t, nv, i, entered, on_stack);
            let es = flatten_events(t, nv, i, entered, on_stack);
            &&& fr.out == events_bytes(t, es)
            &&& forall|x: int| 0 <= x < es.len() ==> event_true(t, #[trigger] es[x])
        }),
    decreases (keys_set(t).difference(on_stack)).len(), nv.chunks.len() - i,
{
    let fr = flatten_node(t, nv, i, entered, on_stack);
    let es = flatten_events(t, nv, i, entered, on_stack);
    if i < nv.chunks.len() {
        match nv.chunks[i] {
            ChunkView::Text { start, end } => {
                lemma_flatten_events_decompose(t, nv, i + 1, entered, on_stack);
                let rest_es = flatten_events(t, nv, i + 1, entered, on_stack);
                let head = seq![EventView::Mapped { path: nv.path, start, end }];
                lemma_events_bytes_concat(t, head, rest_es);
                assert(head.drop_first() =~= Seq::<EventView>::empty());
                assert(events_bytes(t, Seq::<EventView>::empty()) =~= Seq::<u8>::empty());
                assert(events_bytes(t, head) =~= event_bytes(t, head[0]));
                assert(event_true(t, head[0])) by {
                    lemma_lookup_witness(t, nv.path);
                    let jw = choose|jw: int|
                        0 <= jw < t.len() && t[jw].0 == nv.path && #[trigger] t[jw].1
                            == entry_lookup(t, nv.path)->Some_0;
                    assert(match t[jw].1 {
                        Some(m) => m.path == t[jw].0 && m.wf(),
                        None => true,
                    });
                }
                assert(fr.out == events_bytes(t, es));
            },
            ChunkView::Inc { target } => {
                match entry_lookup(t, target) {
                    Some(st) => match st {
                        Some(tn) => {
                            if tn.once && entered.contains(target) {
                                lemma_flatten_events_decompose(t, nv, i + 1, entered, on_stack);
                            } else if on_stack.contains(target) {
                            } else {
                                crate::laws::proof_decreases_descend(t, target, on_stack);
                                assert(entry_lookup(t, tn.path) == Some(Some(tn))) by {
                                    lemma_lookup_witness(t, target);
                                    let jw = choose|jw: int|
                                        0 <= jw < t.len() && t[jw].0 == target
                                            && #[trigger] t[jw].1 == entry_lookup(
                                            t,
                                            target,
                                        )->Some_0;
                                    assert(match t[jw].1 {
                                        Some(m) => m.path == t[jw].0 && m.wf(),
                                        None => true,
                                    });
                                }
                                lemma_flatten_events_decompose(
                                    t,
                                    tn,
                                    0,
                                    entered.insert(target),
                                    on_stack.insert(target),
                                );
                                let sub = flatten_node(
                                    t,
                                    tn,
                                    0,
                                    entered.insert(target),
                                    on_stack.insert(target),
                                );
                                let sube = flatten_events(
                                    t,
                                    tn,
                                    0,
                                    entered.insert(target),
                                    on_stack.insert(target),
                                );
                                if sub.cycle is Some {
                                } else {
                                    lemma_flatten_events_decompose(
                                        t,
                                        nv,
                                        i + 1,
                                        sub.entered,
                                        on_stack,
                                    );
                                    let rest_es = flatten_events(
                                        t,
                                        nv,
                                        i + 1,
                                        sub.entered,
                                        on_stack,
                                    );
                                    let nl = seq![EventView::Newline];
                                    lemma_events_bytes_concat(t, sube + nl, rest_es);
                                    lemma_events_bytes_concat(t, sube, nl);
                                    assert(nl.drop_first() =~= Seq::<EventView>::empty());
                                    assert(events_bytes(t, Seq::<EventView>::empty())
                                        =~= Seq::<u8>::empty());
                                    assert(events_bytes(t, nl) =~= seq![10u8]);
                                    assert(es =~= (sube + nl) + rest_es);
                                    assert(fr.out =~= (events_bytes(t, sube) + events_bytes(t, nl))
                                        + events_bytes(t, rest_es));
                                    assert(fr.out == events_bytes(t, es));
                                    assert forall|x: int|
                                        0 <= x < es.len() implies event_true(
                                        t,
                                        #[trigger] es[x],
                                    ) by {
                                        if x < sube.len() {
                                            assert(es[x] == sube[x]);
                                        } else if x == sube.len() {
                                            assert(es[x] == EventView::Newline);
                                        } else {
                                            assert(es[x] == rest_es[x - sube.len() - 1]);
                                        }
                                    }
                                }
                            }
                        },
                        None => {
                            lemma_flatten_events_decompose(t, nv, i + 1, entered, on_stack);
                        },
                    },
                    None => {
                        lemma_flatten_events_decompose(t, nv, i + 1, entered, on_stack);
                    },
                }
            },
        }
    }
}

/// The fragments a whole replay hands the sink, in delivery order.
pub open spec fn spec_flatten_events(pv: ParsedView) -> Seq<EventView> {
    match pv.node_at(pv.root) {
        Some(rootn) => {
            let entered0: Set<Seq<u8>> = if rootn.once {
                Set::empty().insert(pv.root)
            } else {
                Set::empty()
            };
            flatten_events(pv.entries, rootn, 0, entered0, Set::empty().insert(pv.root))
        },
        None => Seq::empty(),
    }
}

/// Source-mapped delivery: the replayed output is exactly the
/// concatenation of its event stream, one `Mapped` fragment per emitted
/// text chunk — carrying the owning node's canonical path and a byte
/// range within that node's source, whose bytes are the fragment — and
/// one `Newline` per completed descent.
pub proof fn lemma_flatten_out_decomposes(pv: ParsedView)
    requires
        pv.wf(),
    ensures
        spec_flatten(pv).out == events_bytes(pv.entries, spec_flatten_events(pv)),
        forall|x: int|
            0 <= x < spec_flatten_events(pv).len() ==> event_true(
                pv.entries,
                #[trigger] spec_flatten_events(pv)[x],
            ),
{
    let t = pv.entries;
    lemma_lookup_witness(t, pv.root);
    lemma_no_pending_all_loaded(t);
    let jw = choose|jw: int|
        0 <= jw < t.len() && t[jw].0 == pv.root && #[trigger] t[jw].1 == entry_lookup(
            t,
            pv.root,
        )->Some_0;
    assert(t[jw].1 is Some);
    let rootn = t[jw].1->Some_0;
    assert(match t[jw].1 {
        Some(m) => m.path == t[jw].0 && m.wf(),
        None => true,
    });
    assert(pv.node_at(pv.root) == Some(rootn));
    assert(entry_lookup(t, rootn.path) == Some(Some(rootn)));
    let entered0: Set<Seq<u8>> = if rootn.once {
        Set::empty().insert(pv.root)
    } else {
        Set::empty()
    };
    lemma_flatten_events_decompose(t, rootn, 0, entered0, Set::empty().insert(pv.root));
}

impl Parsed {
    /// Replays the graph from the entry into the sinks: the flattened text
    /// streams to the output sink, and afterwards every file of the graph
    /// is reported to the tracking sink exactly once.  Re-entering a file
    /// still open on the descent, unless a once-guard suppressed the
    /// re-entry, is refused as a cycle error, with whatever text preceded
    /// it already emitted and nothing tracked.
    pub fn write<S: OutputSink, T: SourceTracker>(
        &self,
        output_sink: &mut S,
        source_tracker: &mut T,
    ) -> (r: Result<(), Error>)
        requires
            self@.wf(),
        ensures
            ({
                let fr = spec_flatten(self@);
                match r {
                    Ok(_) => {
                        &&& fr.cycle is None
                        &&& final(output_sink).contents() == old(output_sink).contents() + fr.out
                        &&& final(source_tracker).recorded() == old(source_tracker).recorded()
                            + track_list(self@.entries)
                    },
                    Err(e) => {
                        &&& fr.cycle matches Some(c) && e@ == ErrorView::Cycle(c)
                        &&& final(output_sink).contents() == old(output_sink).contents() + fr.out
                        &&& final(source_tracker).recorded() == old(source_tracker).recorded()
                    },
                }
            }),
    {
        let ghost t = self@.entries;
        proof {
            lemma_lookup_witness(t, self@.root);
            lemma_no_pending_all_loaded(t);
        }
        let root_node = match self.get_by_key(self.root_ref()) {
            Some(node) => node,
            None => {
                proof {
                    let j = choose|j: int|
                        0 <= j < t.len() && t[j].0 == self@.root && #[trigger] t[j].1
                            == entry_lookup(t, self@.root)->Some_0;
                    assert(t[j].1 is Some);
                    assert(false);
                }
                vstd::pervasive::unreached()
            },
        };
        let mut entered: Vec<Vec<u8>> = Vec::new();
        if root_node.once() {
            entered.push(clone_bytes(root_node.key()));
        }
        let mut on_stack: Vec<Vec<u8>> = Vec::new();
        on_stack.push(clone_bytes(root_node.key()));
        proof {
            assert(seq_views(on_stack@).to_set() =~= Set::empty().insert(self@.root)) by {
                assert(seq_views(on_stack@) =~= seq![self@.root]);
                assert(seq![self@.root][0] == self@.root);
                assert(seq![self@.root].contains(self@.root));
                assert forall|k: Seq<u8>| seq![self@.root].contains(k) implies k == self@.root by {
                    let j = choose|j: int| 0 <= j < 1 && seq![self@.root][j] == k;
                }
            }
            if root_node@.once {
                assert(seq_views(entered@).to_set() =~= Set::empty().insert(self@.root)) by {
                    assert(seq_views(entered@) =~= seq![self@.root]);
                    assert(seq![self@.root][0] == self@.root);
                    assert(seq![self@.root].contains(self@.root));
                    assert forall|k: Seq<u8>|
                        seq![self@.root].contains(k) implies k == self@.root by {
                        let j = choose|j: int| 0 <= j < 1 && seq![self@.root][j] == k;
                    }
                }
            } else {
                assert(seq_views(entered@).to_set() =~= Set::<Seq<u8>>::empty()) by {
                    assert(seq_views(entered@) =~= Seq::<Seq<u8>>::empty());
                }
            }
            assert(entry_lookup(t, self@.root) == Some(Some(root_node@)));
            let j = choose|j: int|
                0 <= j < t.len() && t[j].0 == self@.root && #[trigger] t[j].1 == entry_lookup(
                    t,
                    self@.root,
                )->Some_0;
            assert(match t[j].1 {
                Some(nv) => nv.path == t[j].0 && nv.wf(),
                None => true,
            });
            assert(root_node@.path == self@.root);
        }
        match self.write_node(root_node, &mut entered, &mut on_stack, output_sink) {
            Ok(_) => {},
            Err(e) => {
                return Err(e);
            },
        }
        let table = self.table();
        let ghost base = source_tracker.recorded();
        let mut j: usize = 0;
        proof {
            assert(base + track_list(t).subrange(0, 0) =~= base);
            assert(table_views(table@).len() == table@.len());
        }
        while j < table.len()
            invariant
                0 <= j <= table@.len(),
                table_views(table@) == t,
                t == self@.entries,
                t.len() == table@.len(),
                self@.wf(),
                source_tracker.recorded() == base + track_list(t).subrange(0, j as int),
            decreases table@.len() - j,
        {
            proof {
                assert(t[j as int] == (table@[j as int].0@, table@[j as int].1@));
                lemma_no_pending_all_loaded(t);
                assert(t[j as int].1 is Some);
            }
            let node = match table[j].1.loaded() {
                Some(node) => node,
                None => {
                    proof {
                        assert(false);
                    }
                    vstd::pervasive::unreached()
                },
            };
            let ghost rec0 = source_tracker.recorded();
            source_tracker.track(node.path(), node.source());
            proof {
                assert(node@ == t[j as int].1->Some_0);
                assert(node@.path == t[j as int].0) by {
                    assert(match t[j as int].1 {
                        Some(nv) => nv.path == t[j as int].0 && nv.wf(),
                        None => true,
                    });
                }
                assert(track_list(t)[j as int] == (t[j as int].0, t[j as int].1->Some_0.source));
                assert(source_tracker.recorded() =~= base + track_list(t).subrange(0, j + 1));
            }
            j += 1;
        }
        proof {
            assert(track_list(t).subrange(0, t.len() as int) =~= track_list(t));
        }
        Ok(())
    }

    /// Replays one node's chunks, depth first, from its first chunk.
    fn write_node<S: OutputSink>(
        &self,
        node: &ParsedNode,
        entered: &mut Vec<Vec<u8>>,
        on_stack: &mut Vec<Vec<u8>>,
        output_sink: &mut S,
    ) -> (r: Result<(), Error>)
        requires
            self@.wf(),
            entry_lookup(self@.entries, node@.path) == Some(Some(node@)),
        ensures
            ({
                let fr = flatten_node(
                    self@.entries,
                    node@,
                    0,
                    seq_views(old(entered)@).to_set(),
                    seq_views(old(on_stack)@).to_set(),
                );
                match r {
                    Ok(_) => {
                        &&& fr.cycle is None
                        &&& final(output_sink).contents() == old(output_sink).contents() + fr.out
                        &&& seq_views(final(entered)@).to_set() == fr.entered
                        &&& final(on_stack)@ == old(on_stack)@
                    },
                    Err(e) => {
                        &&& fr.cycle matches Some(c) && e@ == ErrorView::Cycle(c)
                        &&& final(output_sink).contents() == old(output_sink).contents() + fr.out
                    },
                }
            }),
        decreases (keys_set(self@.entries).difference(seq_views(old(on_stack)@).to_set())).len(),
    {
        let ghost t = self@.entries;
        let ghost stset = seq_views(old(on_stack)@).to_set();
        let ghost base = output_sink.contents();
        let ghost e0 = seq_views(old(entered)@).to_set();
        let ghost mut emitted: Seq<u8> = Seq::empty();
        let mut i: usize = 0;
        proof {
            assert(emitted + flatten_node(t, node@, 0, e0, stset).out =~= flatten_node(
                t,
                node@,
                0,
                e0,
                stset,
            ).out);
            assert(base + emitted =~= base);
        }
        while i < node.chunk_count()
            invariant
                self@.wf(),
                t == self@.entries,
                entry_lookup(t, node@.path) == Some(Some(node@)),
                0 <= i <= node@.chunks.len(),
                on_stack@ == old(on_stack)@,
                stset == seq_views(old(on_stack)@).to_set(),
                e0 == seq_views(old(entered)@).to_set(),
                base == old(output_sink).contents(),
                output_sink.contents() == base + emitted,
                ({
                    let fri = flatten_node(t, node@, i as int, seq_views(entered@).to_set(), stset);
                    flatten_node(t, node@, 0, e0, stset) == (FlattenRes {
                        out: emitted + fri.out,
                        entered: fri.entered,
                        cycle: fri.cycle,
                    })
                }),
            decreases node@.chunks.len() - i,
        {
            let ghost ecur = seq_views(entered@).to_set();
            let ghost em0 = emitted;
            let chunk = match node.get_chunk(i) {
                Some(c) => c,
                None => {
                    proof {
                        assert(false);
                    }
                    vstd::pervasive::unreached()
                },
            };
            match chunk {
                NodeChunk::Text(tc) => {
                    proof {
                        assert(node@.chunks[i as int] == (ChunkView::Text {
                            start: tc.start as int,
                            end: tc.end as int,
                        }));
                        // the chunk is in bounds: the node is a loaded,
                        // well-formed entry of the table
                        lemma_lookup_witness(t, node@.path);
                        let jw = choose|jw: int|
                            0 <= jw < t.len() && t[jw].0 == node@.path && #[trigger] t[jw].1
                                == entry_lookup(t, node@.path)->Some_0;
                        assert(match t[jw].1 {
                            Some(m) => m.path == t[jw].0 && m.wf(),
                            None => true,
                        });
                        assert(node@.wf());
                        assert(tc.start <= tc.end <= node@.source.len());
                        assert(tc.text@.len() == tc.end - tc.start);
                    }
                    output_sink.sink_source_mapped(
                        SourceMappedChunk {
                            text: tc.text,
                            source_path: node.path(),
                            source_range: (tc.start, tc.end),
                        },
                    );
                    proof {
                        let piece = node@.source.subrange(tc.start as int, tc.end as int);
                        let fri = flatten_node(t, node@, i as int, ecur, stset);
                        let frn = flatten_node(t, node@, i + 1, ecur, stset);
                        assert(fri.out == piece + frn.out);
                        assert(fri.entered == frn.entered && fri.cycle == frn.cycle);
                        emitted = em0 + piece;
                        assert(output_sink.contents() =~= base + emitted);
                        assert(em0 + fri.out =~= emitted + frn.out);
                    }
                },
                NodeChunk::Include(target) => {
                    proof {
                        assert(node@.chunks[i as int] == (ChunkView::Inc { target: target@ }));
                        // closure of the table: the target has an entry
                        lemma_lookup_witness(t, node@.path);
                        let j = choose|j: int|
                            0 <= j < t.len() && t[j].0 == node@.path && #[trigger] t[j].1
                                == entry_lookup(t, node@.path)->Some_0;
                        assert(match t[j].1->Some_0.chunks[i as int] {
                            ChunkView::Inc { target: tg } => has_key(t, tg),
                            ChunkView::Text { .. } => true,
                        });
                        assert(has_key(t, target@));
                        lemma_no_pending_all_loaded(t);
                        lemma_lookup_witness(t, target@);
                        let j2 = choose|j2: int|
                            0 <= j2 < t.len() && t[j2].0 == target@ && #[trigger] t[j2].1
                                == entry_lookup(t, target@)->Some_0;
                        assert(t[j2].1 is Some);
                    }
                    let target_node = match self.get_by_path(target) {
                        Some(n) => n,
                        None => {
                            proof {
                                assert(false);
                            }
                            vstd::pervasive::unreached()
                        },
                    };
                    proof {
                        assert(entry_lookup(t, target@) == Some(Some(target_node@)));
                        assert(target_node@.path == target@) by {
                            lemma_lookup_witness(t, target@);
                            let j3 = choose|j3: int|
                                0 <= j3 < t.len() && t[j3].0 == target@ && #[trigger] t[j3].1
                                    == entry_lookup(t, target@)->Some_0;
                            assert(match t[j3].1 {
                                Some(nv) => nv.path == t[j3].0 && nv.wf(),
                                None => true,
                            });
                        }
                    }
                    if target_node.once() && contains_bytes(entered, target_node.key()) {
                        proof {
                            assert(ecur.contains(target@));
                            let fri = flatten_node(t, node@, i as int, ecur, stset);
                            let frn = flatten_node(t, node@, i + 1, ecur, stset);
                            assert(fri == frn);
                        }
                    } else if contains_bytes(on_stack, target) {
                        proof {
                            assert(stset.contains(target@));
                            let fri = flatten_node(t, node@, i as int, ecur, stset);
                            assert(fri.cycle == Some(target@));
                            assert(fri.out =~= Seq::<u8>::empty());
                            assert(em0 + fri.out =~= em0);
                        }
                        return Err(Error::Cycle(CycleError::new(clone_bytes(target))));
                    } else {
                        proof {
                            assert(!stset.contains(target@));
                            if target_node@.once {
                                assert(!ecur.contains(target@));
                            }
                        }
                        let ghost entered_before = entered@;
                        entered.push(clone_bytes(target));
                        proof {
                            assert(seq_views(entered@).to_set() =~= ecur.insert(target@)) by {
                                assert forall|k: Seq<u8>|
                                    seq_views(entered@).contains(k) implies ecur.insert(
                                    target@,
                                ).contains(k) by {
                                    let x = choose|x: int|
                                        0 <= x < seq_views(entered@).len() && seq_views(
                                            entered@,
                                        )[x] == k;
                                    assert(seq_views(entered@)[x] == entered@[x]@);
                                    if x < entered_before.len() {
                                        assert(entered@[x] == entered_before[x]);
                                        assert(seq_views(entered_before)[x] == k);
                                        assert(seq_views(entered_before).contains(k));
                                    }
                                }
                                assert forall|k: Seq<u8>|
                                    ecur.insert(target@).contains(k) implies seq_views(
                                    entered@,
                                ).contains(k) by {
                                    if k == target@ {
                                        assert(seq_views(entered@)[entered@.len() - 1] == k);
                                    } else {
                                        let x = choose|x: int|
                                            0 <= x < seq_views(entered_before).len() && seq_views(
                                                entered_before,
                                            )[x] == k;
                                        assert(entered@[x] == entered_before[x]);
                                        assert(seq_views(entered@)[x] == k);
                                    }
                                }
                            }
                        }
                        let ghost stack_before = on_stack@;
                        on_stack.push(clone_bytes(target));
                        proof {
                            assert(seq_views(on_stack@).to_set() =~= stset.insert(target@)) by {
                                assert forall|k: Seq<u8>|
                                    seq_views(on_stack@).contains(k) implies stset.insert(
                                    target@,
                                ).contains(k) by {
                                    let x = choose|x: int|
                                        0 <= x < seq_views(on_stack@).len() && seq_views(
                                            on_stack@,
                                        )[x] == k;
                                    assert(seq_views(on_stack@)[x] == on_stack@[x]@);
                                    if x < stack_before.len() {
                                        assert(on_stack@[x] == stack_before[x]);
                                        assert(seq_views(stack_before)[x] == k);
                                        assert(seq_views(stack_before).contains(k));
                                    }
                                }
                                assert forall|k: Seq<u8>|
                                    stset.insert(target@).contains(k) implies seq_views(
                                    on_stack@,
                                ).contains(k) by {
                                    if k == target@ {
                                        assert(seq_views(on_stack@)[on_stack@.len() - 1] == k);
                                    } else {
                                        let x = choose|x: int|
                                            0 <= x < seq_views(stack_before).len() && seq_views(
                                                stack_before,
                                            )[x] == k;
                                        assert(on_stack@[x] == stack_before[x]);
                                        assert(seq_views(on_stack@)[x] == k);
                                    }
                                }
                            }
                            // the descent shrinks the unvisited key set
                            lemma_keys_set_finite(t);
                            lemma_has_key_keys_set(t, target@);
                            let d = keys_set(t).difference(stset);
                            let d2 = keys_set(t).difference(stset.insert(target@));
                            assert(d2 =~= d.remove(target@));
                            assert(d.contains(target@));
                            vstd::set_lib::lemma_len_subset(d, keys_set(t));
                            vstd::set_lib::lemma_len_subset(d2, keys_set(t));
                        }
                        let ghost sink_mid = output_sink.contents();
                        let sub_result = self.write_node(
                            target_node,
                            entered,
                            on_stack,
                            output_sink,
                        );
                        match sub_result {
                            Err(e) => {
                                proof {
                                    let sub = flatten_node(
                                        t,
                                        target_node@,
                                        0,
                                        ecur.insert(target@),
                                        stset.insert(target@),
                                    );
                                    let fri = flatten_node(t, node@, i as int, ecur, stset);
                                    assert(fri == sub);
                                    assert(output_sink.contents() =~= base + (em0 + sub.out));
                                    assert(em0 + fri.out =~= em0 + sub.out);
                                }
                                return Err(e);
                            },
                            Ok(_) => {},
                        }
                        on_stack.pop().unwrap();
                        proof {
                            assert(on_stack@ =~= stack_before);
                        }
                        let nl: [u8; 1] = [10];
                        output_sink.sink(nl.as_slice());
                        proof {
                            let sub = flatten_node(
                                t,
                                target_node@,
                                0,
                                ecur.insert(target@),
                                stset.insert(target@),
                            );
                            let fri = flatten_node(t, node@, i as int, ecur, stset);
                            let frn = flatten_node(t, node@, i + 1, sub.entered, stset);
                            assert(sub.cycle is None);
                            assert(fri.out == sub.out + seq![10u8] + frn.out);
                            assert(fri.entered == frn.entered && fri.cycle == frn.cycle);
                            assert(seq_views(entered@).to_set() == sub.entered);
                            emitted = em0 + sub.out + seq![10u8];
                            assert(nl@ =~= seq![10u8]);
                            assert(output_sink.contents() =~= base + emitted);
                            assert(em0 + fri.out =~= emitted + frn.out);
                        }
                    }
                },
            }
            i += 1;
        }
        proof {
            let frend = flatten_node(
                t,
                node@,
                node@.chunks.len() as int,
                seq_views(entered@).to_set(),
                stset,
            );
            assert(frend.out =~= Seq::<u8>::empty());
            assert(emitted + frend.out =~= emitted);
        }
        Ok(())
    }
}

} // verus!
