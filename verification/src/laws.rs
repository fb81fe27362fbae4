use vstd::prelude::*;

use crate::errors::ErrorView;
use crate::file_store::FileStoreView;
use crate::graph::entry_lookup;
use crate::graph::has_key;
use crate::graph::keys_set;
use crate::graph::lemma_has_key_keys_set;
use crate::graph::lemma_keys_set_finite;
use crate::graph::lemma_lookup_absent;
use crate::graph::lemma_lookup_witness;
use crate::graph::lemma_no_pending_all_loaded;
use crate::graph::loaded_graph_for;
use crate::graph::reaches;
use crate::graph::ParsedView;
use crate::graph::TableView;
use crate::node::spec_parse_node;
use crate::node::ChunkView;
use crate::node::NodeView;
use crate::resolve::spec_candidates;
use crate::resolve::spec_resolve;
use crate::search_paths::spec_join;
use crate::search_paths::spec_parent;
use crate::search_paths::SearchPathsView;
use crate::writer::flatten_node;
use crate::writer::spec_flatten;
use crate::writer::track_list;

verus! {

// The laws of the engine, stated and proved once over the same spec
// functions the executable contracts use.

/// Resolution is a function of its arguments alone: resolving the same
/// target, of the same kind, from the same file against the same search
/// paths and the same store always gives the same canonical path or the
/// same not-found failure.
pub proof fn lemma_resolution_idempotent(
    store: FileStoreView,
    sp: SearchPathsView,
    angle: bool,
    target: Seq<u8>,
    from: Seq<u8>,
    src: Seq<u8>,
    line: int,
    r1: Result<Seq<u8>, ErrorView>,
    r2: Result<Seq<u8>, ErrorView>,
)
    requires
        r1 == spec_resolve(store, sp, angle, target, from, src, line),
        r2 == spec_resolve(store, sp, angle, target, from, src, line),
    ensures
        r1 == r2,
{
}

/// A quoted include whose target exists next to the including file
/// resolves there, whatever the configured search paths hold.
pub proof fn lemma_quote_prefers_directory(
    store: FileStoreView,
    sp: SearchPathsView,
    target: Seq<u8>,
    from: Seq<u8>,
    src: Seq<u8>,
    line: int,
)
    requires
        store.canon_of(spec_join(spec_parent(from), target)) is Some,
    ensures
        spec_resolve(store, sp, false, target, from, src, line) == Ok::<Seq<u8>, ErrorView>(
            store.canon_of(spec_join(spec_parent(from), target))->Some_0,
        ),
{
    let cands = spec_candidates(sp, false, target, from);
    assert(cands[0] == spec_join(spec_parent(from), target));
}

/// Two tables that answer every lookup alike flatten alike.
proof fn lemma_flatten_lookup_determined(
    t1: TableView,
    t2: TableView,
    nv: NodeView,
    i: int,
    entered: Set<Seq<u8>>,
    on_stack: Set<Seq<u8>>,
)
    requires
        0 <= i,
        forall|k: Seq<u8>| #[trigger] entry_lookup(t1, k) == entry_lookup(t2, k),
    ensures
        flatten_node(t1, nv, i, entered, on_stack) == flatten_node(t2, nv, i, entered, on_stack),
    decreases (keys_set(t1).difference(on_stack)).len(), nv.chunks.len() - i,
{
    if i < nv.chunks.len() {
        match nv.chunks[i] {
            ChunkView::Text { .. } => {
                lemma_flatten_lookup_determined(t1, t2, nv, i + 1, entered, on_stack);
            },
            ChunkView::Inc { target } => {
                match entry_lookup(t1, target) {
                    Some(st) => match st {
                        Some(tn) => {
                            if tn.once && entered.contains(target) {
                                lemma_flatten_lookup_determined(
                                    t1,
                                    t2,
                                    nv,
                                    i + 1,
                                    entered,
                                    on_stack,
                                );
                            } else if on_stack.contains(target) {
                            } else {
                                proof_decreases_descend(t1, target, on_stack);
                                lemma_flatten_lookup_determined(
                                    t1,
                                    t2,
                                    tn,
                                    0,
                                    entered.insert(target),
                                    on_stack.insert(target),
                                );
                                let sub = flatten_node(
                                    t1,
                                    tn,
                                    0,
                                    entered.insert(target),
                                    on_stack.insert(target),
                                );
                                if !(sub.cycle is Some) {
                                    lemma_flatten_lookup_determined(
                                        t1,
                                        t2,
                                        nv,
                                        i + 1,
                                        sub.entered,
                                        on_stack,
                                    );
                                }
                            }
                        },
                        None => {
                            lemma_flatten_lookup_determined(t1, t2, nv, i + 1, entered, on_stack);
                        },
                    },
                    None => {
                        lemma_flatten_lookup_determined(t1, t2, nv, i + 1, entered, on_stack);
                    },
                }
            },
        }
    }
}

pub proof fn proof_decreases_descend(t: TableView, target: Seq<u8>, on_stack: Set<Seq<u8>>)
    requires
        has_key(t, target),
        !on_stack.contains(target),
    ensures
        (keys_set(t).difference(on_stack.insert(target))).len() < (keys_set(t).difference(
            on_stack,
        )).len(),
{
    lemma_keys_set_finite(t);
    lemma_has_key_keys_set(t, target);
    let d = keys_set(t).difference(on_stack);
    let d2 = keys_set(t).difference(on_stack.insert(target));
    assert(d2 =~= d.remove(target));
    assert(d.contains(target));
    vstd::set_lib::lemma_len_subset(d, keys_set(t));
    vstd::set_lib::lemma_len_subset(d2, keys_set(t));
}

/// In a loaded graph, every present key answers with its own accepted
/// parse.
proof fn lemma_graph_lookup(
    pv: ParsedView,
    store: FileStoreView,
    sp: SearchPathsView,
    entry: Seq<u8>,
    k: Seq<u8>,
)
    requires
        loaded_graph_for(pv, store, sp, entry),
        has_key(pv.entries, k),
    ensures
        entry_lookup(pv.entries, k) == Some(
            Some(spec_parse_node(store, sp, k)->Ok_0),
        ),
        spec_parse_node(store, sp, k) is Ok,
{
    lemma_lookup_witness(pv.entries, k);
    lemma_no_pending_all_loaded(pv.entries);
    let j = choose|j: int|
        0 <= j < pv.entries.len() && pv.entries[j].0 == k && #[trigger] pv.entries[j].1
            == entry_lookup(pv.entries, k)->Some_0;
    assert(spec_parse_node(store, sp, pv.entries[j].0) == Ok::<NodeView, ErrorView>(
        pv.entries[j].1->Some_0,
    ));
}

/// Schedule independence: two complete runs over the same store, search
/// paths and entry hold the same graph, key for key, and flatten to the
/// same output, whatever order their parses completed in.
pub proof fn lemma_schedule_independence(
    store: FileStoreView,
    sp: SearchPathsView,
    entry: Seq<u8>,
    pv1: ParsedView,
    pv2: ParsedView,
)
    requires
        loaded_graph_for(pv1, store, sp, entry),
        loaded_graph_for(pv2, store, sp, entry),
    ensures
        pv1.root == pv2.root,
        forall|k: Seq<u8>| #[trigger] has_key(pv1.entries, k) <==> has_key(pv2.entries, k),
        spec_flatten(pv1) == spec_flatten(pv2),
{
    assert(pv1.root == pv2.root);
    assert forall|k: Seq<u8>| #[trigger] entry_lookup(pv1.entries, k) == entry_lookup(
        pv2.entries,
        k,
    ) by {
        if has_key(pv1.entries, k) {
            assert(reaches(store, sp, pv1.root, k));
            assert(has_key(pv2.entries, k));
            lemma_graph_lookup(pv1, store, sp, entry, k);
            lemma_graph_lookup(pv2, store, sp, entry, k);
        } else {
            assert(!reaches(store, sp, pv1.root, k));
            assert(!has_key(pv2.entries, k));
            lemma_lookup_absent_of(pv1.entries, k);
            lemma_lookup_absent_of(pv2.entries, k);
        }
    }
    let root = pv1.root;
    assert(has_key(pv1.entries, root));
    lemma_graph_lookup(pv1, store, sp, entry, root);
    lemma_graph_lookup(pv2, store, sp, entry, root);
    assert(pv1.node_at(root) == pv2.node_at(root));
    match pv1.node_at(root) {
        Some(rootn) => {
            let entered0: Set<Seq<u8>> = if rootn.once {
                Set::empty().insert(root)
            } else {
                Set::empty()
            };
            lemma_flatten_lookup_determined(
                pv1.entries,
                pv2.entries,
                rootn,
                0,
                entered0,
                Set::empty().insert(root),
            );
        },
        None => {},
    }
}

proof fn lemma_lookup_absent_of(t: TableView, k: Seq<u8>)
    requires
        !has_key(t, k),
    ensures
        entry_lookup(t, k) is None,
{
}

/// Tracking completeness: the paths reported to the tracking sink are
/// exactly the canonical files reachable from the entry, each exactly
/// once.
pub proof fn lemma_tracking_completeness(
    store: FileStoreView,
    sp: SearchPathsView,
    entry: Seq<u8>,
    pv: ParsedView,
)
    requires
        loaded_graph_for(pv, store, sp, entry),
    ensures
        forall|k: Seq<u8>|
            (exists|j: int|
                0 <= j < track_list(pv.entries).len() && (#[trigger] track_list(pv.entries)[j]).0
                    == k) <==> reaches(store, sp, pv.root, k),
        forall|j1: int, j2: int|
            0 <= j1 < j2 < track_list(pv.entries).len() ==> track_list(pv.entries)[j1].0
                != track_list(pv.entries)[j2].0,
{
    let tl = track_list(pv.entries);
    assert(tl.len() == pv.entries.len());
    assert forall|j: int| 0 <= j < tl.len() implies (#[trigger] tl[j]).0 == pv.entries[j].0 by {}
    assert forall|k: Seq<u8>|
        (exists|j: int| 0 <= j < tl.len() && (#[trigger] tl[j]).0 == k) implies reaches(
        store,
        sp,
        pv.root,
        k,
    ) by {
        let j = choose|j: int| 0 <= j < tl.len() && tl[j].0 == k;
        assert(pv.entries[j].0 == k);
        if !has_key(pv.entries, k) {
            lemma_lookup_absent(pv.entries, k);
        }
    }
    assert forall|k: Seq<u8>| reaches(store, sp, pv.root, k) implies (exists|j: int|
        0 <= j < tl.len() && (#[trigger] tl[j]).0 == k) by {
        assert(has_key(pv.entries, k));
        lemma_lookup_witness(pv.entries, k);
        let j = choose|j: int|
            0 <= j < pv.entries.len() && pv.entries[j].0 == k && #[trigger] pv.entries[j].1
                == entry_lookup(pv.entries, k)->Some_0;
        assert(tl[j].0 == k);
    }
}

} // verus!

verus! {

/// Parsing only ever appends to the accumulated chunks.
proof fn lemma_parse_rec_acc_prefix(
    store: FileStoreView,
    sp: SearchPathsView,
    path: Seq<u8>,
    src: Seq<u8>,
    pos: int,
    cs: int,
    ce: int,
    line: int,
    acc: Seq<ChunkView>,
    once: bool,
)
    requires
        0 <= pos,
        crate::node::parse_rec(store, sp, path, src, pos, cs, ce, line, acc, once) is Ok,
    ensures
        ({
            let chunks = crate::node::parse_rec(
                store,
                sp,
                path,
                src,
                pos,
                cs,
                ce,
                line,
                acc,
                once,
            )->Ok_0.0;
            chunks.len() >= acc.len() && chunks.subrange(0, acc.len() as int) == acc
        }),
    decreases src.len() - pos,
{
    let chunks = crate::node::parse_rec(store, sp, path, src, pos, cs, ce, line, acc, once)->Ok_0.0;
    if pos >= src.len() {
        assert(chunks == acc + crate::node::spec_flush(cs, ce));
        assert(chunks.subrange(0, acc.len() as int) =~= acc);
    } else {
        crate::line_parser::lemma_classify_advances(src, pos);
        match crate::line_parser::classify(src, pos) {
            crate::line_parser::LineClass::Malformed => {},
            crate::line_parser::LineClass::Text { next } => {
                lemma_parse_rec_acc_prefix(store, sp, path, src, next, cs, next, line + 1, acc, once);
            },
            crate::line_parser::LineClass::PragmaOnce { next } => {
                let acc2 = acc + crate::node::spec_flush(cs, ce);
                lemma_parse_rec_acc_prefix(
                    store,
                    sp,
                    path,
                    src,
                    next,
                    next,
                    next,
                    line + 1,
                    acc2,
                    true,
                );
                assert(chunks.subrange(0, acc2.len() as int).subrange(0, acc.len() as int)
                    =~= chunks.subrange(0, acc.len() as int));
                assert(acc2.subrange(0, acc.len() as int) =~= acc);
            },
            crate::line_parser::LineClass::Include { angle, target, next } => {
                match spec_resolve(store, sp, angle, target, path, src, line) {
                    Ok(resolved) => {
                        let acc2 = acc + crate::node::spec_flush(cs, ce) + seq![
                            ChunkView::Inc { target: resolved },
                        ];
                        lemma_parse_rec_acc_prefix(
                            store,
                            sp,
                            path,
                            src,
                            next,
                            next,
                            next,
                            line + 1,
                            acc2,
                            once,
                        );
                        assert(chunks.subrange(0, acc2.len() as int).subrange(0, acc.len() as int)
                            =~= chunks.subrange(0, acc.len() as int));
                        assert(acc2.subrange(0, acc.len() as int) =~= acc);
                    },
                    Err(_) => {},
                }
            },
        }
    }
}

/// The once-flag never turns off.
proof fn lemma_parse_rec_once_monotone(
    store: FileStoreView,
    sp: SearchPathsView,
    path: Seq<u8>,
    src: Seq<u8>,
    pos: int,
    cs: int,
    ce: int,
    line: int,
    acc: Seq<ChunkView>,
)
    requires
        0 <= pos,
        crate::node::parse_rec(store, sp, path, src, pos, cs, ce, line, acc, true) is Ok,
    ensures
        crate::node::parse_rec(store, sp, path, src, pos, cs, ce, line, acc, true)->Ok_0.1
            == true,
    decreases src.len() - pos,
{
    if pos < src.len() {
        crate::line_parser::lemma_classify_advances(src, pos);
        match crate::line_parser::classify(src, pos) {
            crate::line_parser::LineClass::Malformed => {},
            crate::line_parser::LineClass::Text { next } => {
                lemma_parse_rec_once_monotone(store, sp, path, src, next, cs, next, line + 1, acc);
            },
            crate::line_parser::LineClass::PragmaOnce { next } => {
                lemma_parse_rec_once_monotone(
                    store,
                    sp,
                    path,
                    src,
                    next,
                    next,
                    next,
                    line + 1,
                    acc + crate::node::spec_flush(cs, ce),
                );
            },
            crate::line_parser::LineClass::Include { angle, target, next } => {
                match spec_resolve(store, sp, angle, target, path, src, line) {
                    Ok(resolved) => {
                        lemma_parse_rec_once_monotone(
                            store,
                            sp,
                            path,
                            src,
                            next,
                            next,
                            next,
                            line + 1,
                            acc + crate::node::spec_flush(cs, ce) + seq![
                                ChunkView::Inc { target: resolved },
                            ],
                        );
                    },
                    Err(_) => {},
                }
            },
        }
    }
}

/// A parse that yields no directive at all saw only text lines, and its
/// chunks are the accumulated ones plus one run to the end of the file.
proof fn lemma_parse_rec_all_text(
    store: FileStoreView,
    sp: SearchPathsView,
    path: Seq<u8>,
    src: Seq<u8>,
    pos: int,
    cs: int,
    ce: int,
    line: int,
    acc: Seq<ChunkView>,
)
    requires
        0 <= cs <= ce <= pos <= src.len(),
        crate::node::parse_rec(store, sp, path, src, pos, cs, ce, line, acc, false) matches Ok(p)
            && p.1 == false,
        forall|c: int|
            0 <= c < crate::node::parse_rec(
                store,
                sp,
                path,
                src,
                pos,
                cs,
                ce,
                line,
                acc,
                false,
            )->Ok_0.0.len() ==> !((#[trigger] crate::node::parse_rec(
                store,
                sp,
                path,
                src,
                pos,
                cs,
                ce,
                line,
                acc,
                false,
            )->Ok_0.0[c]) is Inc),
    ensures
        crate::node::parse_rec(store, sp, path, src, pos, cs, ce, line, acc, false)->Ok_0.0 == acc
            + crate::node::spec_flush(
            cs,
            if pos < src.len() {
                src.len() as int
            } else {
                ce
            },
        ),
    decreases src.len() - pos,
{
    let chunks = crate::node::parse_rec(store, sp, path, src, pos, cs, ce, line, acc, false)->Ok_0.0;
    if pos >= src.len() {
    } else {
        crate::line_parser::lemma_classify_advances(src, pos);
        match crate::line_parser::classify(src, pos) {
            crate::line_parser::LineClass::Malformed => {},
            crate::line_parser::LineClass::Text { next } => {
                lemma_parse_rec_all_text(store, sp, path, src, next, cs, next, line + 1, acc);
            },
            crate::line_parser::LineClass::PragmaOnce { next } => {
                lemma_parse_rec_once_monotone(
                    store,
                    sp,
                    path,
                    src,
                    next,
                    next,
                    next,
                    line + 1,
                    acc + crate::node::spec_flush(cs, ce),
                );
            },
            crate::line_parser::LineClass::Include { angle, target, next } => {
                match spec_resolve(store, sp, angle, target, path, src, line) {
                    Ok(resolved) => {
                        let acc2 = acc + crate::node::spec_flush(cs, ce) + seq![
                            ChunkView::Inc { target: resolved },
                        ];
                        lemma_parse_rec_acc_prefix(
                            store,
                            sp,
                            path,
                            src,
                            next,
                            next,
                            next,
                            line + 1,
                            acc2,
                            false,
                        );
                        assert(chunks.subrange(0, acc2.len() as int) == acc2);
                        assert(chunks[acc2.len() - 1] == acc2[acc2.len() - 1]) by {
                            assert(chunks.subrange(0, acc2.len() as int)[acc2.len() - 1]
                                == chunks[acc2.len() - 1]);
                        }
                        assert(chunks[acc2.len() - 1] is Inc);
                        assert(false);
                    },
                    Err(_) => {},
                }
            },
        }
    }
}

/// Order preservation: a file whose every line is plain text — malformed
/// directive-shaped lines count as text — flattens to its own bytes, byte
/// for byte.  (A file holding a once-guard or a well-formed include
/// directive is reproduced without the directive lines, so the law speaks
/// of directive-free files.)
pub proof fn lemma_order_preservation(
    store: FileStoreView,
    sp: SearchPathsView,
    entry: Seq<u8>,
    pv: ParsedView,
)
    requires
        loaded_graph_for(pv, store, sp, entry),
        spec_parse_node(store, sp, pv.root) is Ok,
        forall|c: int|
            0 <= c < spec_parse_node(store, sp, pv.root)->Ok_0.chunks.len() ==> !((
            #[trigger] spec_parse_node(store, sp, pv.root)->Ok_0.chunks[c]) is Inc),
        spec_parse_node(store, sp, pv.root)->Ok_0.once == false,
    ensures
        spec_flatten(pv).cycle is None,
        spec_flatten(pv).out == spec_parse_node(store, sp, pv.root)->Ok_0.source,
{
    let nv = spec_parse_node(store, sp, pv.root)->Ok_0;
    assert(has_key(pv.entries, pv.root));
    lemma_graph_lookup(pv, store, sp, entry, pv.root);
    assert(pv.node_at(pv.root) == Some(nv));
    let src = store.content_of(pv.root)->Some_0;
    assert(nv.source == src);
    lemma_parse_rec_all_text(store, sp, pv.root, src, 0, 0, 0, 0, Seq::empty());
    let flush = crate::node::spec_flush(
        0,
        if 0 < src.len() {
            src.len() as int
        } else {
            0
        },
    );
    assert(nv.chunks == Seq::<ChunkView>::empty() + flush);
    let entered0: Set<Seq<u8>> = Set::empty();
    let st0: Set<Seq<u8>> = Set::empty().insert(pv.root);
    if src.len() == 0 {
        assert(nv.chunks =~= Seq::<ChunkView>::empty());
        assert(spec_flatten(pv).out =~= src);
    } else {
        assert(nv.chunks =~= seq![ChunkView::Text { start: 0, end: src.len() as int }]);
        let fr1 = flatten_node(pv.entries, nv, 1, entered0, st0);
        assert(fr1.out =~= Seq::<u8>::empty());
        assert(spec_flatten(pv).out == src.subrange(0, src.len() as int) + fr1.out);
        assert(spec_flatten(pv).out =~= src);
    }
}

} // verus!

verus! {

/// How many times `x` occurs in `s`.
pub open spec fn count_of(s: Seq<Seq<u8>>, x: Seq<u8>) -> int
    decreases s.len(),
{
    if s.len() == 0 {
        0
    } else {
        (if s[0] == x {
            1int
        } else {
            0int
        }) + count_of(s.drop_first(), x)
    }
}

proof fn lemma_count_nonneg(s: Seq<Seq<u8>>, x: Seq<u8>)
    ensures
        count_of(s, x) >= 0,
    decreases s.len(),
{
    if s.len() > 0 {
        lemma_count_nonneg(s.drop_first(), x);
    }
}

proof fn lemma_count_concat(a: Seq<Seq<u8>>, b: Seq<Seq<u8>>, x: Seq<u8>)
    ensures
        count_of(a + b, x) == count_of(a, x) + count_of(b, x),
    decreases a.len(),
{
    if a.len() == 0 {
        assert(a + b =~= b);
    } else {
        assert((a + b).drop_first() =~= a.drop_first() + b);
        lemma_count_concat(a.drop_first(), b, x);
    }
}

proof fn lemma_count_contains(s: Seq<Seq<u8>>, x: Seq<u8>)
    ensures
        count_of(s, x) > 0 <==> s.contains(x),
    decreases s.len(),
{
    lemma_count_nonneg(s, x);
    if s.len() > 0 {
        lemma_count_contains(s.drop_first(), x);
        lemma_count_nonneg(s.drop_first(), x);
        if s[0] == x {
            assert(s.contains(x));
        } else {
            if s.drop_first().contains(x) {
                let j = choose|j: int|
                    0 <= j < s.drop_first().len() && s.drop_first()[j] == x;
                assert(s[j + 1] == x);
                assert(s.contains(x));
            }
            if s.contains(x) {
                let j = choose|j: int| 0 <= j < s.len() && s[j] == x;
                assert(s.drop_first()[j - 1] == x);
                assert(s.drop_first().contains(x));
            }
        }
    }
}

/// The keys descended into during the replay of one node from chunk `i`,
/// in order of descent.
pub open spec fn flatten_descents(
    t: TableView,
    nv: NodeView,
    i: int,
    entered: Set<Seq<u8>>,
    on_stack: Set<Seq<u8>>,
) -> Seq<Seq<u8>>
    decreases (keys_set(t).difference(on_stack)).len(), nv.chunks.len() - i,
        when 0 <= i
        via flatten_descents_decreases
{
    if i >= nv.chunks.len() {
        Seq::empty()
    } else {
        match nv.chunks[i] {
            ChunkView::Text { .. } => flatten_descents(t, nv, i + 1, entered, on_stack),
            ChunkView::Inc { target } => {
                match entry_lookup(t, target) {
                    Some(st) => match st {
                        Some(tn) => {
                            if tn.once && entered.contains(target) {
                                flatten_descents(t, nv, i + 1, entered, on_stack)
                            } else if on_stack.contains(target) {
                                Seq::empty()
                            } else {
                                let sub = flatten_node(
                                    t,
                                    tn,
                                    0,
                                    entered.insert(target),
                                    on_stack.insert(target),
                                );
                                let subd = flatten_descents(
                                    t,
                                    tn,
                                    0,
                                    entered.insert(target),
                                    on_stack.insert(target),
                                );
                                if sub.cycle is Some {
                                    seq![target] + subd
                                } else {
                                    seq![target] + subd + flatten_descents(
                                        t,
                                        nv,
                                        i + 1,
                                        sub.entered,
                                        on_stack,
                                    )
                                }
                            }
                        },
                        None => flatten_descents(t, nv, i + 1, entered, on_stack),
                    },
                    None => flatten_descents(t, nv, i + 1, entered, on_stack),
                }
            },
        }
    }
}

#[via_fn]
proof fn flatten_descents_decreases(
    t: TableView,
    nv: NodeView,
    i: int,
    entered: Set<Seq<u8>>,
    on_stack: Set<Seq<u8>>,
) {
    lemma_keys_set_finite(t);
    vstd::set_lib::lemma_len_subset(keys_set(t).difference(on_stack), keys_set(t));
    if 0 <= i < nv.chunks.len() {
        match nv.chunks[i] {
            ChunkView::Inc { target } => {
                match entry_lookup(t, target) {
                    Some(st) => match st {
                        Some(tn) => {
                            if !(tn.once && entered.contains(target)) && !on_stack.contains(
                                target,
                            ) {
                                proof_decreases_descend(t, target, on_stack);
                            }
                        },
                        None => {},
                    },
                    None => {},
                }
            },
            ChunkView::Text { .. } => {},
        }
    }
}

/// The entered set only grows during a replay, and, when the replay runs
/// to the end, it takes in every key descended into.
proof fn lemma_flatten_entered(
    t: TableView,
    nv: NodeView,
    i: int,
    entered: Set<Seq<u8>>,
    on_stack: Set<Seq<u8>>,
)
    requires
        0 <= i,
    ensures
        ({
            let fr = flatten_node(t, nv, i, entered, on_stack);
            let ds = flatten_descents(t, nv, i, entered, on_stack);
            &&& forall|k: Seq<u8>| entered.contains(k) ==> #[trigger] fr.entered.contains(k)
            &&& fr.cycle is None ==> forall|k: Seq<u8>|
                ds.contains(k) ==> #[trigger] fr.entered.contains(k)
        }),
    decreases (keys_set(t).difference(on_stack)).len(), nv.chunks.len() - i,
{
    let fr = flatten_node(t, nv, i, entered, on_stack);
    let ds = flatten_descents(t, nv, i, entered, on_stack);
    if i < nv.chunks.len() {
        match nv.chunks[i] {
            ChunkView::Text { .. } => {
                lemma_flatten_entered(t, nv, i + 1, entered, on_stack);
            },
            ChunkView::Inc { target } => {
                match entry_lookup(t, target) {
                    Some(st) => match st {
                        Some(tn) => {
                            if tn.once && entered.contains(target) {
                                lemma_flatten_entered(t, nv, i + 1, entered, on_stack);
                            } else if on_stack.contains(target) {
                            } else {
                                proof_decreases_descend(t, target, on_stack);
                                lemma_flatten_entered(
                                    t,
                                    tn,
                                    0,
                                    entered.insert(target),
                                    on_stack.insert(target),
                                );
                                let sub = flatten_node(
                                    t,
                                    tn,
                                    0,
                                    entered.insert(target),
                                    on_stack.insert(target),
                                );
                                let subd = flatten_descents(
                                    t,
                                    tn,
                                    0,
                                    entered.insert(target),
                                    on_stack.insert(target),
                                );
                                if sub.cycle is Some {
                                } else {
                                    lemma_flatten_entered(t, nv, i + 1, sub.entered, on_stack);
                                    let rest = flatten_node(t, nv, i + 1, sub.entered, on_stack);
                                    let restd = flatten_descents(
                                        t,
                                        nv,
                                        i + 1,
                                        sub.entered,
                                        on_stack,
                                    );
                                    if fr.cycle is None {
                                        assert forall|k: Seq<u8>| ds.contains(k) implies #[trigger]
                                        fr.entered.contains(k) by {
                                            let j = choose|j: int| 0 <= j < ds.len() && ds[j] == k;
                                            if j == 0 {
                                                assert(k == target);
                                                assert(sub.entered.contains(target));
                                            } else if j <= subd.len() {
                                                assert(subd[j - 1] == k);
                                                assert(subd.contains(k));
                                                assert(sub.entered.contains(k));
                                            } else {
                                                assert(restd[j - 1 - subd.len()] == k);
                                                assert(restd.contains(k));
                                            }
                                        }
                                    }
                                }
                            }
                        },
                        None => {
                            lemma_flatten_entered(t, nv, i + 1, entered, on_stack);
                        },
                    },
                    None => {
                        lemma_flatten_entered(t, nv, i + 1, entered, on_stack);
                    },
                }
            },
        }
    }
}

/// A once-guarded file already marked entered is never descended into
/// again during a replay that runs to the end.
proof fn lemma_once_suppressed(
    t: TableView,
    nv: NodeView,
    i: int,
    entered: Set<Seq<u8>>,
    on_stack: Set<Seq<u8>>,
    p: Seq<u8>,
)
    requires
        0 <= i,
        entry_lookup(t, p) matches Some(pst),
        entry_lookup(t, p)->Some_0 matches Some(pn),
        entry_lookup(t, p)->Some_0->Some_0.once,
        entered.contains(p),
    ensures
        flatten_node(t, nv, i, entered, on_stack).cycle is None ==> count_of(
            flatten_descents(t, nv, i, entered, on_stack),
            p,
        ) == 0,
    decreases (keys_set(t).difference(on_stack)).len(), nv.chunks.len() - i,
{
    let fr = flatten_node(t, nv, i, entered, on_stack);
    let ds = flatten_descents(t, nv, i, entered, on_stack);
    if i < nv.chunks.len() {
        match nv.chunks[i] {
            ChunkView::Text { .. } => {
                lemma_once_suppressed(t, nv, i + 1, entered, on_stack, p);
            },
            ChunkView::Inc { target } => {
                match entry_lookup(t, target) {
                    Some(st) => match st {
                        Some(tn) => {
                            if tn.once && entered.contains(target) {
                                lemma_once_suppressed(t, nv, i + 1, entered, on_stack, p);
                            } else if on_stack.contains(target) {
                            } else {
                                assert(target != p);
                                proof_decreases_descend(t, target, on_stack);
                                lemma_once_suppressed(
                                    t,
                                    tn,
                                    0,
                                    entered.insert(target),
                                    on_stack.insert(target),
                                    p,
                                );
                                let sub = flatten_node(
                                    t,
                                    tn,
                                    0,
                                    entered.insert(target),
                                    on_stack.insert(target),
                                );
                                let subd = flatten_descents(
                                    t,
                                    tn,
                                    0,
                                    entered.insert(target),
                                    on_stack.insert(target),
                                );
                                if sub.cycle is Some {
                                } else {
                                    lemma_flatten_entered(
                                        t,
                                        tn,
                                        0,
                                        entered.insert(target),
                                        on_stack.insert(target),
                                    );
                                    assert(sub.entered.contains(p));
                                    lemma_once_suppressed(
                                        t,
                                        nv,
                                        i + 1,
                                        sub.entered,
                                        on_stack,
                                        p,
                                    );
                                    let restd = flatten_descents(
                                        t,
                                        nv,
                                        i + 1,
                                        sub.entered,
                                        on_stack,
                                    );
                                    if fr.cycle is None {
                                        lemma_count_concat(seq![target] + subd, restd, p);
                                        lemma_count_concat(seq![target], subd, p);
                                        assert(count_of(seq![target], p) == 0) by {
                                            assert(seq![target].drop_first()
                                                =~= Seq::<Seq<u8>>::empty());
                                            assert(count_of(Seq::<Seq<u8>>::empty(), p) == 0);
                                        }
                                        assert(ds =~= (seq![target] + subd) + restd);
                                    }
                                }
                            }
                        },
                        None => {
                            lemma_once_suppressed(t, nv, i + 1, entered, on_stack, p);
                        },
                    },
                    None => {
                        lemma_once_suppressed(t, nv, i + 1, entered, on_stack, p);
                    },
                }
            },
        }
    }
}

/// A once-guarded file is descended into at most once during a replay
/// that runs to the end.
proof fn lemma_once_at_most_once(
    t: TableView,
    nv: NodeView,
    i: int,
    entered: Set<Seq<u8>>,
    on_stack: Set<Seq<u8>>,
    p: Seq<u8>,
)
    requires
        0 <= i,
        entry_lookup(t, p) matches Some(pst),
        entry_lookup(t, p)->Some_0 matches Some(pn),
        entry_lookup(t, p)->Some_0->Some_0.once,
    ensures
        flatten_node(t, nv, i, entered, on_stack).cycle is None ==> count_of(
            flatten_descents(t, nv, i, entered, on_stack),
            p,
        ) <= 1,
    decreases (keys_set(t).difference(on_stack)).len(), nv.chunks.len() - i,
{
    let fr = flatten_node(t, nv, i, entered, on_stack);
    let ds = flatten_descents(t, nv, i, entered, on_stack);
    if entered.contains(p) {
        lemma_once_suppressed(t, nv, i, entered, on_stack, p);
    } else if i < nv.chunks.len() {
        match nv.chunks[i] {
            ChunkView::Text { .. } => {
                lemma_once_at_most_once(t, nv, i + 1, entered, on_stack, p);
            },
            ChunkView::Inc { target } => {
                match entry_lookup(t, target) {
                    Some(st) => match st {
                        Some(tn) => {
                            if tn.once && entered.contains(target) {
                                lemma_once_at_most_once(t, nv, i + 1, entered, on_stack, p);
                            } else if on_stack.contains(target) {
                            } else {
                                proof_decreases_descend(t, target, on_stack);
                                let sub = flatten_node(
                                    t,
                                    tn,
                                    0,
                                    entered.insert(target),
                                    on_stack.insert(target),
                                );
                                let subd = flatten_descents(
                                    t,
                                    tn,
                                    0,
                                    entered.insert(target),
                                    on_stack.insert(target),
                                );
                                if sub.cycle is Some {
                                } else {
                                    let restd = flatten_descents(
                                        t,
                                        nv,
                                        i + 1,
                                        sub.entered,
                                        on_stack,
                                    );
                                    if fr.cycle is None {
                                        lemma_count_concat(seq![target] + subd, restd, p);
                                        lemma_count_concat(seq![target], subd, p);
                                        assert(ds =~= (seq![target] + subd) + restd);
                                        assert(count_of(seq![target], p) == (if target == p {
                                            1int
                                        } else {
                                            0int
                                        })) by {
                                            assert(seq![target].drop_first()
                                                =~= Seq::<Seq<u8>>::empty());
                                            assert(count_of(Seq::<Seq<u8>>::empty(), p) == 0);
                                        }
                                        if target == p {
                                            // descended into p here: nothing later descends again
                                            lemma_once_suppressed(
                                                t,
                                                tn,
                                                0,
                                                entered.insert(target),
                                                on_stack.insert(target),
                                                p,
                                            );
                                            lemma_flatten_entered(
                                                t,
                                                tn,
                                                0,
                                                entered.insert(target),
                                                on_stack.insert(target),
                                            );
                                            assert(sub.entered.contains(p));
                                            lemma_once_suppressed(
                                                t,
                                                nv,
                                                i + 1,
                                                sub.entered,
                                                on_stack,
                                                p,
                                            );
                                        } else {
                                            lemma_once_at_most_once(
                                                t,
                                                tn,
                                                0,
                                                entered.insert(target),
                                                on_stack.insert(target),
                                                p,
                                            );
                                            lemma_once_at_most_once(
                                                t,
                                                nv,
                                                i + 1,
                                                sub.entered,
                                                on_stack,
                                                p,
                                            );
                                            lemma_count_nonneg(subd, p);
                                            lemma_count_nonneg(restd, p);
                                            if count_of(subd, p) > 0 {
                                                lemma_count_contains(subd, p);
                                                lemma_flatten_entered(
                                                    t,
                                                    tn,
                                                    0,
                                                    entered.insert(target),
                                                    on_stack.insert(target),
                                                );
                                                assert(sub.entered.contains(p));
                                                lemma_once_suppressed(
                                                    t,
                                                    nv,
                                                    i + 1,
                                                    sub.entered,
                                                    on_stack,
                                                    p,
                                                );
                                            }
                                        }
                                    }
                                }
                            }
                        },
                        None => {
                            lemma_once_at_most_once(t, nv, i + 1, entered, on_stack, p);
                        },
                    },
                    None => {
                        lemma_once_at_most_once(t, nv, i + 1, entered, on_stack, p);
                    },
                }
            },
        }
    }
}

/// The keys descended into during a whole replay, in order.
pub open spec fn spec_flatten_descents(pv: ParsedView) -> Seq<Seq<u8>> {
    match pv.node_at(pv.root) {
        Some(rootn) => {
            let entered0: Set<Seq<u8>> = if rootn.once {
                Set::empty().insert(pv.root)
            } else {
                Set::empty()
            };
            flatten_descents(pv.entries, rootn, 0, entered0, Set::empty().insert(pv.root))
        },
        None => Seq::empty(),
    }
}

/// The once-guard law: in a complete replay, a once-guarded file is
/// descended into at most once, however many include paths lead to it,
/// and it is reported to the tracking sink exactly once all the same.
pub proof fn lemma_once_guard(
    store: FileStoreView,
    sp: SearchPathsView,
    entry: Seq<u8>,
    pv: ParsedView,
    p: Seq<u8>,
)
    requires
        loaded_graph_for(pv, store, sp, entry),
        spec_flatten(pv).cycle is None,
        pv.node_at(p) matches Some(pn),
        pv.node_at(p)->Some_0.once,
    ensures
        count_of(spec_flatten_descents(pv), p) <= 1,
        exists|j: int|
            0 <= j < track_list(pv.entries).len() && (#[trigger] track_list(pv.entries)[j]).0 == p,
        forall|j1: int, j2: int|
            0 <= j1 < j2 < track_list(pv.entries).len() ==> track_list(pv.entries)[j1].0
                != track_list(pv.entries)[j2].0,
{
    assert(has_key(pv.entries, pv.root));
    lemma_graph_lookup(pv, store, sp, entry, pv.root);
    let rootn = pv.node_at(pv.root)->Some_0;
    let entered0: Set<Seq<u8>> = if rootn.once {
        Set::empty().insert(pv.root)
    } else {
        Set::empty()
    };
    assert(entry_lookup(pv.entries, p) matches Some(pst));
    lemma_once_at_most_once(
        pv.entries,
        rootn,
        0,
        entered0,
        Set::empty().insert(pv.root),
        p,
    );
    if entered0.contains(p) {
    }
    // tracked exactly once
    assert(has_key(pv.entries, p));
    lemma_tracking_completeness(store, sp, entry, pv);
    lemma_lookup_witness(pv.entries, p);
    let j = choose|j: int|
        0 <= j < pv.entries.len() && pv.entries[j].0 == p && #[trigger] pv.entries[j].1
            == entry_lookup(pv.entries, p)->Some_0;
    assert(track_list(pv.entries)[j].0 == p);
}

} // verus!
