use vstd::prelude::*;

use crate::node::ChunkView;
use crate::node::NodeView;
use crate::node::ParsedNode;
use crate::errors::Error;
use crate::file_store::FileStore;
use crate::search_paths::SearchPaths;
use crate::util::bytes_eq;
use crate::util::clone_bytes;
use crate::util::seq_views;

verus! {

// The include graph under construction: a table from canonical path to
// load state, built by one coordinating owner.  A key enters the table in
// the pending state the moment its path is first seen, and exactly once
// per run: that is the deduplication the whole loader rests on.  The
// balance counts the keys still pending, and the run is complete when it
// reaches zero.

/// The load state of one key of the table.
pub enum LoadState {
    Loaded(ParsedNode),
    Pending,
}

impl View for LoadState {
    type V = Option<NodeView>;

    open spec fn view(&self) -> Option<NodeView> {
        match self {
            LoadState::Loaded(node) => Some(node@),
            LoadState::Pending => None,
        }
    }
}

impl LoadState {
    /// The node, once this key is loaded.
    pub fn loaded(&self) -> (r: Option<&ParsedNode>)
        ensures
            match r {
                Some(node) => self@ == Some(node@),
                None => self@ is None,
            },
    {
        if let LoadState::Loaded(node) = self {
            Some(node)
        } else {
            None
        }
    }
}

/// One table of graph entries, mathematically: pairs of a key and the
/// node loaded for it, `None` while a worker still owes the parse.
pub type TableView = Seq<(Seq<u8>, Option<NodeView>)>;

/// The entries a table holds, in insertion order.
pub open spec fn table_views(s: Seq<(Vec<u8>, LoadState)>) -> TableView {
    s.map_values(|e: (Vec<u8>, LoadState)| (e.0@, e.1@))
}

/// First-match lookup of a key, scanning from `i`.
pub open spec fn entry_lookup_from(t: TableView, key: Seq<u8>, i: int) -> Option<Option<NodeView>>
    decreases t.len() - i,
{
    if i < 0 || i >= t.len() {
        None
    } else if t[i].0 == key {
        Some(t[i].1)
    } else {
        entry_lookup_from(t, key, i + 1)
    }
}

pub open spec fn entry_lookup(t: TableView, key: Seq<u8>) -> Option<Option<NodeView>> {
    entry_lookup_from(t, key, 0)
}

pub open spec fn has_key(t: TableView, key: Seq<u8>) -> bool {
    entry_lookup(t, key) is Some
}

/// The number of pending entries, scanning from `i`.
pub open spec fn pending_count_from(t: TableView, i: int) -> int
    decreases t.len() - i,
{
    if i < 0 || i >= t.len() {
        0
    } else {
        (if t[i].1 is None {
            1int
        } else {
            0int
        }) + pending_count_from(t, i + 1)
    }
}

pub open spec fn pending_count(t: TableView) -> int {
    pending_count_from(t, 0)
}

/// Whether a node's chunks include the target `t`.
pub open spec fn node_has_target(nv: NodeView, t: Seq<u8>) -> bool {
    exists|c: int|
        0 <= c < nv.chunks.len() && nv.chunks[c] == (ChunkView::Inc { target: t })
}

/// Keys are pairwise distinct.
pub open spec fn keys_distinct(t: TableView) -> bool {
    forall|i: int, j: int| 0 <= i < j < t.len() ==> t[i].0 != t[j].0
}

/// Every loaded entry carries the node of its own key, well formed, and
/// every include target of every loaded node has an entry of its own.
pub open spec fn table_wf(t: TableView) -> bool {
    &&& keys_distinct(t)
    &&& forall|i: int|
        0 <= i < t.len() ==> match #[trigger] t[i].1 {
            Some(nv) => nv.path == t[i].0 && nv.wf(),
            None => true,
        }
    &&& forall|i: int, c: int|
        0 <= i < t.len() && t[i].1 is Some && 0 <= c < t[i].1->Some_0.chunks.len()
            ==> match #[trigger] t[i].1->Some_0.chunks[c] {
            ChunkView::Inc { target } => has_key(t, target),
            ChunkView::Text { .. } => true,
        }
}

proof fn lemma_entry_lookup_from_bounds(t: TableView, key: Seq<u8>, i: int)
    requires
        0 <= i <= t.len(),
        entry_lookup_from(t, key, i) is Some,
    ensures
        exists|j: int|
            i <= j < t.len() && t[j].0 == key && #[trigger] t[j].1 == entry_lookup_from(
                t,
                key,
                i,
            )->Some_0,
    decreases t.len() - i,
{
    if i < t.len() && t[i].0 != key {
        lemma_entry_lookup_from_bounds(t, key, i + 1);
    }
}

/// A present key's lookup names some entry of the table.
pub proof fn lemma_lookup_witness(t: TableView, key: Seq<u8>)
    requires
        entry_lookup(t, key) is Some,
    ensures
        exists|j: int|
            0 <= j < t.len() && t[j].0 == key && #[trigger] t[j].1 == entry_lookup(
                t,
                key,
            )->Some_0,
{
    lemma_entry_lookup_from_bounds(t, key, 0);
}

proof fn lemma_entry_lookup_from_found(t: TableView, key: Seq<u8>, i: int, j: int)
    requires
        keys_distinct(t),
        0 <= i <= j < t.len(),
        t[j].0 == key,
    ensures
        entry_lookup_from(t, key, i) == Some(t[j].1),
    decreases t.len() - i,
{
    if i < j {
        lemma_entry_lookup_from_found(t, key, i + 1, j);
    }
}

/// With distinct keys, the lookup of any entry's key gives that entry.
pub proof fn lemma_lookup_found(t: TableView, j: int)
    requires
        keys_distinct(t),
        0 <= j < t.len(),
    ensures
        entry_lookup(t, t[j].0) == Some(t[j].1),
{
    lemma_entry_lookup_from_found(t, t[j].0, 0, j);
}

proof fn lemma_entry_lookup_from_absent(t: TableView, key: Seq<u8>, i: int)
    requires
        0 <= i,
        entry_lookup_from(t, key, i) is None,
    ensures
        forall|j: int| i <= j < t.len() ==> t[j].0 != key,
    decreases t.len() - i,
{
    if i < t.len() {
        lemma_entry_lookup_from_absent(t, key, i + 1);
    }
}

/// An absent key matches no entry.
pub proof fn lemma_lookup_absent(t: TableView, key: Seq<u8>)
    requires
        entry_lookup(t, key) is None,
    ensures
        forall|j: int| 0 <= j < t.len() ==> t[j].0 != key,
{
    lemma_entry_lookup_from_absent(t, key, 0);
}

/// Appending entries leaves the lookup of present keys unchanged, and a
/// push decides the lookup of its own key when that key was absent.
pub proof fn lemma_lookup_push(t: TableView, key: Seq<u8>, e: (Seq<u8>, Option<NodeView>))
    ensures
        entry_lookup(t, key) is Some ==> entry_lookup(t.push(e), key) == entry_lookup(t, key),
        entry_lookup(t, key) is None && e.0 == key ==> entry_lookup(t.push(e), key) == Some(e.1),
        entry_lookup(t, key) is None && e.0 != key ==> entry_lookup(t.push(e), key) is None,
{
    lemma_lookup_push_from(t, key, e, 0);
}

proof fn lemma_lookup_push_from(
    t: TableView,
    key: Seq<u8>,
    e: (Seq<u8>, Option<NodeView>),
    i: int,
)
    requires
        0 <= i <= t.len(),
    ensures
        entry_lookup_from(t, key, i) is Some ==> entry_lookup_from(t.push(e), key, i)
            == entry_lookup_from(t, key, i),
        entry_lookup_from(t, key, i) is None && e.0 == key ==> entry_lookup_from(t.push(e), key, i)
            == Some(e.1),
        entry_lookup_from(t, key, i) is None && e.0 != key ==> entry_lookup_from(t.push(e), key, i)
            is None,
    decreases t.len() - i,
{
    if i < t.len() {
        lemma_lookup_push_from(t, key, e, i + 1);
    } else {
        assert(entry_lookup_from(t.push(e), key, i + 1) is None);
    }
}

/// Looks a key up in a table of entries.
pub(crate) fn table_lookup<'a>(entries: &'a Vec<(Vec<u8>, LoadState)>, key: &Vec<u8>) -> (r:
    Option<&'a LoadState>)
    ensures
        match r {
            Some(st) => entry_lookup(table_views(entries@), key@) == Some(st@),
            None => entry_lookup(table_views(entries@), key@) is None,
        },
{
    let ghost tv = table_views(entries@);
    let mut i: usize = 0;
    proof {
        assert(tv.len() == entries@.len());
    }
    while i < entries.len()
        invariant
            0 <= i <= entries@.len(),
            tv == table_views(entries@),
            tv.len() == entries@.len(),
            entry_lookup_from(tv, key@, 0) == entry_lookup_from(tv, key@, i as int),
        decreases entries@.len() - i,
    {
        proof {
            assert(tv[i as int] == (entries@[i as int].0@, entries@[i as int].1@));
        }
        if bytes_eq(&entries[i].0, key) {
            return Some(&entries[i].1);
        }
        i += 1;
    }
    None
}

} // verus!

verus! {

proof fn lemma_pending_count_from_nonneg(t: TableView, i: int)
    ensures
        pending_count_from(t, i) >= 0,
    decreases t.len() - i,
{
    if 0 <= i < t.len() {
        lemma_pending_count_from_nonneg(t, i + 1);
    }
}

/// The pending count never exceeds the table's size.
pub proof fn lemma_pending_count_bounds(t: TableView)
    ensures
        0 <= pending_count(t) <= t.len(),
{
    lemma_pending_count_from_bounds(t, 0);
}

proof fn lemma_pending_count_from_bounds(t: TableView, i: int)
    requires
        0 <= i <= t.len(),
    ensures
        0 <= pending_count_from(t, i) <= t.len() - i,
    decreases t.len() - i,
{
    if i < t.len() {
        lemma_pending_count_from_bounds(t, i + 1);
    }
}

proof fn lemma_pending_count_from_pos(t: TableView, i: int, j: int)
    requires
        0 <= i <= j < t.len(),
        t[j].1 is None,
    ensures
        pending_count_from(t, i) >= 1,
    decreases j - i,
{
    lemma_pending_count_from_nonneg(t, i + 1);
    if i < j {
        lemma_pending_count_from_pos(t, i + 1, j);
    }
}

/// A pending entry makes the pending count positive.
pub proof fn lemma_pending_count_pos(t: TableView, j: int)
    requires
        0 <= j < t.len(),
        t[j].1 is None,
    ensures
        pending_count(t) >= 1,
{
    lemma_pending_count_from_pos(t, 0, j);
}

proof fn lemma_pending_count_push_from(t: TableView, e: (Seq<u8>, Option<NodeView>), i: int)
    requires
        0 <= i <= t.len(),
    ensures
        pending_count_from(t.push(e), i) == pending_count_from(t, i) + (if e.1 is None {
            1int
        } else {
            0int
        }),
    decreases t.len() - i,
{
    if i < t.len() {
        lemma_pending_count_push_from(t, e, i + 1);
    } else {
        assert(pending_count_from(t.push(e), i + 1) == 0);
    }
}

/// Appending an entry raises the pending count exactly when it is pending.
pub proof fn lemma_pending_count_push(t: TableView, e: (Seq<u8>, Option<NodeView>))
    ensures
        pending_count(t.push(e)) == pending_count(t) + (if e.1 is None {
            1int
        } else {
            0int
        }),
{
    lemma_pending_count_push_from(t, e, 0);
}

proof fn lemma_pending_count_pointwise_from(t1: TableView, t2: TableView, j: int, i: int)
    requires
        t1.len() == t2.len(),
        0 <= i <= t1.len(),
        0 <= j < t1.len(),
        forall|k: int| 0 <= k < t1.len() && k != j ==> t1[k] == t2[k],
        t1[j].1 is None,
        t2[j].1 is Some,
    ensures
        pending_count_from(t2, i) == pending_count_from(t1, i) - (if i <= j {
            1int
        } else {
            0int
        }),
    decreases t1.len() - i,
{
    if i < t1.len() {
        lemma_pending_count_pointwise_from(t1, t2, j, i + 1);
    }
}

/// Loading one pending entry lowers the pending count by one.
pub proof fn lemma_pending_count_load_one(t1: TableView, t2: TableView, j: int)
    requires
        t1.len() == t2.len(),
        0 <= j < t1.len(),
        forall|k: int| 0 <= k < t1.len() && k != j ==> t1[k] == t2[k],
        t1[j].1 is None,
        t2[j].1 is Some,
    ensures
        pending_count(t2) == pending_count(t1) - 1,
{
    lemma_pending_count_pointwise_from(t1, t2, j, 0);
}

/// The table after replacing every entry of `key` with the loaded `nv`.
pub open spec fn set_loaded(t: TableView, key: Seq<u8>, nv: NodeView) -> TableView {
    t.map_values(
        |e: (Seq<u8>, Option<NodeView>)|
            if e.0 == key {
                (e.0, Some(nv))
            } else {
                e
            },
    )
}

/// What absorbing a node's chunks does to the table: each include target
/// not yet present is appended pending, in chunk order, and those targets
/// are handed back as the new work.
pub open spec fn spec_absorb(t: TableView, chunks: Seq<ChunkView>, i: int) -> (
    TableView,
    Seq<Seq<u8>>,
)
    decreases chunks.len() - i,
{
    if i < 0 || i >= chunks.len() {
        (t, Seq::empty())
    } else {
        match chunks[i] {
            ChunkView::Text { .. } => spec_absorb(t, chunks, i + 1),
            ChunkView::Inc { target } => {
                if has_key(t, target) {
                    spec_absorb(t, chunks, i + 1)
                } else {
                    let rec = spec_absorb(t.push((target, None)), chunks, i + 1);
                    (rec.0, seq![target] + rec.1)
                }
            },
        }
    }
}

/// What the coordinator does with one finished parse: absorb the node's
/// include targets, then mark the node's own key loaded.
pub open spec fn spec_on_parsed(t: TableView, nv: NodeView) -> (TableView, Seq<Seq<u8>>) {
    let rec = spec_absorb(t, nv.chunks, 0);
    (set_loaded(rec.0, nv.path, nv), rec.1)
}

} // verus!

verus! {

/// Lookups after `set_loaded`: the loaded key answers with the node, every
/// other key answers as before.
pub proof fn lemma_lookup_set_loaded(t: TableView, key: Seq<u8>, nv: NodeView, k: Seq<u8>)
    ensures
        k == key && entry_lookup(t, k) is Some ==> entry_lookup(set_loaded(t, key, nv), k) == Some(
            Some(nv),
        ),
        k != key ==> entry_lookup(set_loaded(t, key, nv), k) == entry_lookup(t, k),
        entry_lookup(t, k) is None ==> entry_lookup(set_loaded(t, key, nv), k) is None,
    decreases 0int,
{
    lemma_lookup_set_loaded_from(t, key, nv, k, 0);
}

proof fn lemma_lookup_set_loaded_from(t: TableView, key: Seq<u8>, nv: NodeView, k: Seq<u8>, i: int)
    requires
        0 <= i <= t.len(),
    ensures
        k == key && entry_lookup_from(t, k, i) is Some ==> entry_lookup_from(
            set_loaded(t, key, nv),
            k,
            i,
        ) == Some(Some(nv)),
        k != key ==> entry_lookup_from(set_loaded(t, key, nv), k, i) == entry_lookup_from(t, k, i),
        entry_lookup_from(t, k, i) is None ==> entry_lookup_from(set_loaded(t, key, nv), k, i)
            is None,
    decreases t.len() - i,
{
    assert(set_loaded(t, key, nv).len() == t.len());
    if i < t.len() {
        assert(set_loaded(t, key, nv)[i] == (if t[i].0 == key {
            (t[i].0, Some(nv))
        } else {
            t[i]
        }));
        lemma_lookup_set_loaded_from(t, key, nv, k, i + 1);
    }
}

/// The coordinator's state while the include graph is loading.
pub struct Loader {
    entries: Vec<(Vec<u8>, LoadState)>,
    root_key: Vec<u8>,
    balance: usize,
}

/// The mathematical content of a `Loader`.
pub struct LoaderView {
    pub entries: TableView,
    pub root: Seq<u8>,
    pub balance: int,
}

impl LoaderView {
    /// The loader's invariant: a well-formed table whose balance counts
    /// the pending entries, with the root present.
    pub open spec fn wf(self) -> bool {
        &&& table_wf(self.entries)
        &&& self.balance == pending_count(self.entries)
        &&& has_key(self.entries, self.root)
    }
}

impl View for Loader {
    type V = LoaderView;

    closed spec fn view(&self) -> LoaderView {
        LoaderView {
            entries: table_views(self.entries@),
            root: self.root_key@,
            balance: self.balance as int,
        }
    }
}

impl Loader {
    /// Starts a run: the entry's canonical path is pending, and the one
    /// outstanding parse is the entry itself.
    pub fn new(entry_canon: Vec<u8>) -> (r: Loader)
        ensures
            r@.entries == seq![(entry_canon@, Option::<NodeView>::None)],
            r@.root == entry_canon@,
            r@.balance == 1,
            r@.wf(),
    {
        let root_key = crate::util::clone_bytes(&entry_canon);
        let mut entries: Vec<(Vec<u8>, LoadState)> = Vec::new();
        entries.push((entry_canon, LoadState::Pending));
        let r = Loader { entries, root_key, balance: 1 };
        proof {
            assert(r@.entries =~= seq![(r@.root, Option::<NodeView>::None)]);
            assert(r@.entries[0].1 is None);
            assert(pending_count_from(r@.entries, 1) == 0);
            assert(pending_count(r@.entries) == 1);
            assert(entry_lookup(r@.entries, r@.root) == Some(Option::<NodeView>::None));
        }
        r
    }

    /// How many dispatched parses have not come back yet.
    pub fn balance(&self) -> (r: usize)
        ensures
            r as int == self@.balance,
    {
        self.balance
    }

    /// Whether `key` is in the table and still owed by a worker.
    pub fn is_pending(&self, key: &Vec<u8>) -> (r: bool)
        ensures
            r == (entry_lookup(self@.entries, key@) == Some(Option::<NodeView>::None)),
    {
        match table_lookup(&self.entries, key) {
            Some(st) => match st {
                LoadState::Pending => true,
                LoadState::Loaded(_) => false,
            },
            None => false,
        }
    }

    /// The canonical path of the entry file.
    pub fn root_key(&self) -> (r: &Vec<u8>)
        ensures
            r@ == self@.root,
    {
        &self.root_key
    }
}

} // verus!

verus! {

/// Finds the position of `key` in a table of entries.
fn find_key(entries: &Vec<(Vec<u8>, LoadState)>, key: &Vec<u8>) -> (r: Option<usize>)
    ensures
        match r {
            Some(j) => (j as int) < entries@.len() && entries@[j as int].0@ == key@,
            None => entry_lookup(table_views(entries@), key@) is None,
        },
{
    let ghost tv = table_views(entries@);
    let mut j: usize = 0;
    proof {
        assert(tv.len() == entries@.len());
    }
    while j < entries.len()
        invariant
            0 <= j <= entries@.len(),
            tv == table_views(entries@),
            tv.len() == entries@.len(),
            entry_lookup_from(tv, key@, 0) == entry_lookup_from(tv, key@, j as int),
        decreases entries@.len() - j,
    {
        proof {
            assert(tv[j as int] == (entries@[j as int].0@, entries@[j as int].1@));
        }
        if bytes_eq(&entries[j].0, key) {
            return Some(j);
        }
        j += 1;
    }
    None
}

impl Loader {
    /// Takes one finished parse: the node's key turns from pending to
    /// loaded, every include target not yet in the table enters it as
    /// pending, and those targets come back as the parses to dispatch
    /// next.  In what table and work list result, the order in which
    /// finished parses arrive plays no part beyond the order of entries.
    pub fn on_parsed(&mut self, node: ParsedNode) -> (r: Vec<Vec<u8>>)
        requires
            old(self)@.wf(),
            entry_lookup(old(self)@.entries, node@.path) == Some(Option::<NodeView>::None),
        ensures
            final(self)@.wf(),
            final(self)@.entries == spec_on_parsed(old(self)@.entries, node@).0,
            seq_views(r@) == spec_on_parsed(old(self)@.entries, node@).1,
            final(self)@.root == old(self)@.root,
            final(self)@.balance == old(self)@.balance - 1 + r@.len(),
    {
        let ghost tv0 = old(self)@.entries;
        let ghost nv = node@;
        proof {
            use_type_invariant(&node);
            lemma_lookup_witness(tv0, nv.path);
            let j = choose|j: int|
                0 <= j < tv0.len() && tv0[j].0 == nv.path && #[trigger] tv0[j].1 == entry_lookup(
                    tv0,
                    nv.path,
                )->Some_0;
            lemma_pending_count_pos(tv0, j);
        }
        self.balance = self.balance - 1;
        let chunks = node.chunks();
        let mut news: Vec<Vec<u8>> = Vec::new();
        let mut i: usize = 0;
        proof {
            assert(seq_views(news@) =~= Seq::<Seq<u8>>::empty());
            assert(seq_views(news@) + spec_absorb(table_views(self.entries@), nv.chunks, 0).1
                =~= spec_absorb(tv0, nv.chunks, 0).1);
        }
        while i < chunks.len()
            invariant
                0 <= i <= chunks@.len(),
                chunks@.len() == nv.chunks.len(),
                nv == node@,
                nv.wf(),
                forall|k: int|
                    0 <= k < chunks@.len() ==> crate::node::chunk_matches(
                        #[trigger] chunks@[k],
                        nv.chunks[k],
                        nv.source,
                    ),
                tv0 == old(self)@.entries,
                table_wf(tv0),
                self@.root == old(self)@.root,
                ({
                    let cur = table_views(self.entries@);
                    &&& cur.len() >= tv0.len()
                    &&& cur.subrange(0, tv0.len() as int) == tv0
                    &&& forall|k: int| tv0.len() <= k < cur.len() ==> (#[trigger] cur[k].1) is None
                    &&& keys_distinct(cur)
                    &&& self@.balance == pending_count(cur) - 1
                    &&& self@.balance == old(self)@.balance - 1 + news@.len()
                    &&& entry_lookup(cur, nv.path) == Some(Option::<NodeView>::None)
                    &&& spec_absorb(tv0, nv.chunks, 0).0 == spec_absorb(cur, nv.chunks, i as int).0
                    &&& spec_absorb(tv0, nv.chunks, 0).1 == seq_views(news@) + spec_absorb(
                        cur,
                        nv.chunks,
                        i as int,
                    ).1
                    &&& forall|c: int|
                        0 <= c < i ==> match #[trigger] nv.chunks[c] {
                            ChunkView::Inc { target } => has_key(cur, target),
                            ChunkView::Text { .. } => true,
                        }
                }),
            decreases chunks@.len() - i,
        {
            let ghost cur = table_views(self.entries@);
            match &chunks[i] {
                crate::node::NodeChunk::Text(_) => {
                    proof {
                        assert(nv.chunks[i as int] is Text);
                        assert(spec_absorb(cur, nv.chunks, i as int) == spec_absorb(
                            cur,
                            nv.chunks,
                            i + 1,
                        ));
                    }
                },
                crate::node::NodeChunk::Include(target) => {
                    proof {
                        assert(nv.chunks[i as int] == (ChunkView::Inc { target: target@ }));
                    }
                    match table_lookup(&self.entries, target) {
                        Some(_) => {
                            proof {
                                assert(has_key(cur, target@));
                                assert(spec_absorb(cur, nv.chunks, i as int) == spec_absorb(
                                    cur,
                                    nv.chunks,
                                    i + 1,
                                ));
                            }
                        },
                        None => {
                            let key = clone_bytes(target);
                            let ghost gkey = key;
                            let ghost entries0 = self.entries@;
                            self.entries.push((key, LoadState::Pending));
                            let n2 = self.entries.len();
                            proof {
                                lemma_table_views_push(entries0, (gkey, LoadState::Pending));
                                let cur2 = table_views(self.entries@);
                                assert(cur2 =~= cur.push((target@, Option::<NodeView>::None)));
                                lemma_pending_count_push(
                                    cur,
                                    (target@, Option::<NodeView>::None),
                                );
                                lemma_pending_count_bounds(cur2);
                                assert(cur2.len() == n2);
                            }
                            self.balance = self.balance + 1;
                            let ghost news0 = news@;
                            news.push(clone_bytes(target));
                            proof {
                                let cur2 = table_views(self.entries@);
                                assert(cur2 =~= cur.push((target@, Option::<NodeView>::None)));
                                lemma_pending_count_push(
                                    cur,
                                    (target@, Option::<NodeView>::None),
                                );
                                lemma_lookup_absent(cur, target@);
                                assert forall|a: int, b: int|
                                    0 <= a < b < cur2.len() implies cur2[a].0 != cur2[b].0 by {
                                    if b < cur.len() {
                                        assert(cur2[a] == cur[a] && cur2[b] == cur[b]);
                                    } else {
                                        assert(cur2[b].0 == target@);
                                        assert(cur2[a] == cur[a]);
                                    }
                                }
                                lemma_lookup_push(
                                    cur,
                                    nv.path,
                                    (target@, Option::<NodeView>::None),
                                );
                                lemma_lookup_push(
                                    cur,
                                    target@,
                                    (target@, Option::<NodeView>::None),
                                );
                                assert(cur2.subrange(0, tv0.len() as int) =~= cur.subrange(
                                    0,
                                    tv0.len() as int,
                                ));
                                crate::util::lemma_seq_views_push(news0, gkey);
                                assert(seq_views(news@) =~= seq_views(news0).push(target@));
                                assert(spec_absorb(cur, nv.chunks, i as int).0 == spec_absorb(
                                    cur2,
                                    nv.chunks,
                                    i + 1,
                                ).0);
                                assert(spec_absorb(cur, nv.chunks, i as int).1 == seq![target@]
                                    + spec_absorb(cur2, nv.chunks, i + 1).1);
                                assert(seq_views(news0) + spec_absorb(cur, nv.chunks, i as int).1
                                    =~= seq_views(news@) + spec_absorb(cur2, nv.chunks, i + 1).1);
                                assert forall|k: int|
                                    tv0.len() <= k < cur2.len() implies (#[trigger] cur2[k].1)
                                    is None by {
                                    if k < cur.len() {
                                        assert(cur2[k] == cur[k]);
                                    }
                                }
                            }
                        },
                    }
                },
            }
            proof {
                let curx = table_views(self.entries@);
                assert forall|c: int|
                    0 <= c < i + 1 implies match #[trigger] nv.chunks[c] {
                    ChunkView::Inc { target } => has_key(curx, target),
                    ChunkView::Text { .. } => true,
                } by {
                    if c < i {
                        match nv.chunks[c] {
                            ChunkView::Inc { target } => {
                                if curx != cur {
                                    lemma_lookup_push(
                                        cur,
                                        target,
                                        (nv.chunks[i as int]->target, Option::<NodeView>::None),
                                    );
                                }
                            },
                            ChunkView::Text { .. } => {},
                        }
                    } else {
                        match nv.chunks[c] {
                            ChunkView::Inc { target } => {
                                if curx != cur {
                                    lemma_lookup_push(
                                        cur,
                                        target,
                                        (target, Option::<NodeView>::None),
                                    );
                                }
                            },
                            ChunkView::Text { .. } => {},
                        }
                    }
                }
            }
            i += 1;
        }
        let ghost cur_end = table_views(self.entries@);
        let path_copy = clone_bytes(node.path());
        let j = match find_key(&self.entries, node.path()) {
            Some(j) => j,
            None => {
                proof {
                    assert(false);
                }
                0
            },
        };
        let ghost pre_set = self.entries@;
        self.entries.set(j, (path_copy, LoadState::Loaded(node)));
        proof {
            let fin = table_views(self.entries@);
            assert(self.entries@ =~= pre_set.update(j as int, self.entries@[j as int]));
            assert forall|k: int| 0 <= k < fin.len() implies fin[k] == set_loaded(
                cur_end,
                nv.path,
                nv,
            )[k] by {
                assert(fin[k] == (self.entries@[k].0@, self.entries@[k].1@));
                assert(cur_end[k] == (pre_set[k].0@, pre_set[k].1@));
                if k != j {
                    assert(self.entries@[k] == pre_set[k]);
                    assert(cur_end[k].0 != nv.path) by {
                        assert(cur_end[j as int].0 == nv.path);
                        if k < j {
                            assert(keys_distinct(cur_end));
                        }
                    }
                }
            }
            assert(fin =~= set_loaded(cur_end, nv.path, nv));
            // balance: the one pending entry of the node's key turns loaded
            assert(cur_end[j as int].1 is None) by {
                lemma_lookup_found(cur_end, j as int);
            }
            lemma_pending_count_load_one(cur_end, fin, j as int);
            // table well-formedness of the result
            lemma_set_loaded_wf(cur_end, nv, tv0, j as int);
            assert(spec_absorb(cur_end, nv.chunks, nv.chunks.len() as int).0 == cur_end);
            assert(spec_absorb(cur_end, nv.chunks, nv.chunks.len() as int).1
                =~= Seq::<Seq<u8>>::empty());
            assert(seq_views(news@) + Seq::<Seq<u8>>::empty() =~= seq_views(news@));
            // the root key stays present
            lemma_lookup_set_loaded(cur_end, nv.path, nv, old(self)@.root);
            assert(has_key(cur_end, old(self)@.root)) by {
                if old(self)@.root != nv.path {
                    lemma_lookup_preserved_by_suffix(tv0, cur_end, old(self)@.root);
                }
            }
        }
        news
    }
}

proof fn lemma_table_views_push(s: Seq<(Vec<u8>, LoadState)>, e: (Vec<u8>, LoadState))
    ensures
        table_views(s.push(e)) == table_views(s).push((e.0@, e.1@)),
{
    assert forall|k: int| 0 <= k < s.len() + 1 implies table_views(s.push(e))[k] == table_views(
        s,
    ).push((e.0@, e.1@))[k] by {
        assert(table_views(s.push(e))[k] == (s.push(e)[k].0@, s.push(e)[k].1@));
        if k < s.len() {
            assert(table_views(s)[k] == (s[k].0@, s[k].1@));
        }
    }
    assert(table_views(s.push(e)) =~= table_views(s).push((e.0@, e.1@)));
}

/// A key present in a prefix stays present in the longer table.
pub proof fn lemma_lookup_preserved_by_suffix(t1: TableView, t2: TableView, key: Seq<u8>)
    requires
        t1.len() <= t2.len(),
        t2.subrange(0, t1.len() as int) == t1,
        entry_lookup(t1, key) is Some,
    ensures
        entry_lookup(t2, key) == entry_lookup(t1, key),
{
    lemma_lookup_preserved_by_suffix_from(t1, t2, key, 0);
}

proof fn lemma_lookup_preserved_by_suffix_from(t1: TableView, t2: TableView, key: Seq<u8>, i: int)
    requires
        0 <= i <= t1.len() <= t2.len(),
        t2.subrange(0, t1.len() as int) == t1,
        entry_lookup_from(t1, key, i) is Some,
    ensures
        entry_lookup_from(t2, key, i) == entry_lookup_from(t1, key, i),
    decreases t1.len() - i,
{
    assert(t2[i] == t2.subrange(0, t1.len() as int)[i]);
    if t1[i].0 != key {
        lemma_lookup_preserved_by_suffix_from(t1, t2, key, i + 1);
    }
}

proof fn lemma_set_loaded_wf(cur: TableView, nv: NodeView, tv0: TableView, j: int)
    requires
        table_wf(tv0),
        cur.len() >= tv0.len(),
        cur.subrange(0, tv0.len() as int) == tv0,
        forall|k: int| tv0.len() <= k < cur.len() ==> (#[trigger] cur[k].1) is None,
        keys_distinct(cur),
        0 <= j < cur.len(),
        cur[j].0 == nv.path,
        nv.wf(),
        forall|c: int|
            0 <= c < nv.chunks.len() ==> match #[trigger] nv.chunks[c] {
                ChunkView::Inc { target } => has_key(cur, target),
                ChunkView::Text { .. } => true,
            },
    ensures
        table_wf(set_loaded(cur, nv.path, nv)),
{
    let fin = set_loaded(cur, nv.path, nv);
    assert(fin.len() == cur.len());
    assert(forall|k: int| 0 <= k < cur.len() ==> (#[trigger] fin[k]).0 == cur[k].0);
    assert(keys_distinct(fin));
    assert forall|k: int| 0 <= k < fin.len() implies match #[trigger] fin[k].1 {
        Some(m) => m.path == fin[k].0 && m.wf(),
        None => true,
    } by {
        if cur[k].0 == nv.path {
            assert(fin[k] == (cur[k].0, Some(nv)));
        } else {
            assert(fin[k] == cur[k]);
            if k < tv0.len() {
                assert(cur[k] == tv0[k]);
                assert(match tv0[k].1 {
                    Some(m) => m.path == tv0[k].0 && m.wf(),
                    None => true,
                });
            }
        }
    }
    assert forall|k: int, c: int|
        0 <= k < fin.len() && fin[k].1 is Some && 0 <= c < fin[k].1->Some_0.chunks.len() implies (
    match #[trigger] fin[k].1->Some_0.chunks[c] {
        ChunkView::Inc { target } => has_key(fin, target),
        ChunkView::Text { .. } => true,
    }) by {
        let m = fin[k].1->Some_0;
        match m.chunks[c] {
            ChunkView::Inc { target } => {
                assert(has_key(cur, target)) by {
                    if cur[k].0 == nv.path {
                        assert(m == nv);
                    } else {
                        assert(fin[k] == cur[k]);
                        assert(k < tv0.len());
                        assert(cur[k] == tv0[k]);
                        assert(has_key(tv0, target));
                        lemma_lookup_preserved_by_suffix(tv0, cur, target);
                    }
                }
                lemma_lookup_set_loaded(cur, nv.path, nv, target);
            },
            ChunkView::Text { .. } => {},
        }
    }
}

} // verus!

verus! {

// Reachability in the include relation, as the loader's contracts speak of
// it: a key is reachable when a chain of accepted parses leads from the
// entry to it, each step an include chunk of the parse before.

/// A chain of keys in which every step follows an include chunk of an
/// accepted parse.
pub open spec fn chain_ok(
    store: crate::file_store::FileStoreView,
    sp: crate::search_paths::SearchPathsView,
    ks: Seq<Seq<u8>>,
) -> bool {
    forall|i: int|
        0 <= i < ks.len() - 1 ==> {
            &&& (#[trigger] crate::node::spec_parse_node(store, sp, ks[i])) is Ok
            &&& node_has_target(crate::node::spec_parse_node(store, sp, ks[i])->Ok_0, ks[i + 1])
        }
}

/// A chain of accepted parses leads from `entry` to `k`.
pub open spec fn reaches(
    store: crate::file_store::FileStoreView,
    sp: crate::search_paths::SearchPathsView,
    entry: Seq<u8>,
    k: Seq<u8>,
) -> bool {
    exists|ks: Seq<Seq<u8>>|
        ks.len() >= 1 && ks.first() == entry && ks.last() == k && #[trigger] chain_ok(
            store,
            sp,
            ks,
        )
}

/// The entry reaches itself.
pub proof fn lemma_reaches_entry(
    store: crate::file_store::FileStoreView,
    sp: crate::search_paths::SearchPathsView,
    entry: Seq<u8>,
)
    ensures
        reaches(store, sp, entry, entry),
{
    let ks: Seq<Seq<u8>> = seq![entry];
    assert(chain_ok(store, sp, ks));
    assert(ks.first() == entry && ks.last() == entry);
}

/// Reachability follows the include chunks of an accepted parse.
pub proof fn lemma_reaches_step(
    store: crate::file_store::FileStoreView,
    sp: crate::search_paths::SearchPathsView,
    entry: Seq<u8>,
    k: Seq<u8>,
    t: Seq<u8>,
)
    requires
        reaches(store, sp, entry, k),
        crate::node::spec_parse_node(store, sp, k) is Ok,
        node_has_target(crate::node::spec_parse_node(store, sp, k)->Ok_0, t),
    ensures
        reaches(store, sp, entry, t),
{
    let ks = choose|ks: Seq<Seq<u8>>|
        ks.len() >= 1 && ks.first() == entry && ks.last() == k && #[trigger] chain_ok(
            store,
            sp,
            ks,
        );
    let ks2 = ks.push(t);
    assert forall|i: int| 0 <= i < ks2.len() - 1 implies {
        &&& (#[trigger] crate::node::spec_parse_node(store, sp, ks2[i])) is Ok
        &&& node_has_target(crate::node::spec_parse_node(store, sp, ks2[i])->Ok_0, ks2[i + 1])
    } by {
        if i < ks.len() - 1 {
            assert(ks2[i] == ks[i] && ks2[i + 1] == ks[i + 1]);
        } else {
            assert(ks2[i] == ks.last() && ks2[i + 1] == t);
        }
    }
    assert(ks2.len() >= 1 && ks2.first() == entry && ks2.last() == t);
    assert(chain_ok(store, sp, ks2));
}

/// What absorbing chunks builds, entry by entry: the untouched original
/// table, then one pending entry per handed-back target; the targets are
/// fresh, distinct, and drawn from the include chunks.
proof fn lemma_absorb_props(t: TableView, chunks: Seq<ChunkView>, i: int)
    requires
        0 <= i <= chunks.len(),
    ensures
        ({
            let (t2, ns) = spec_absorb(t, chunks, i);
            &&& t2.len() == t.len() + ns.len()
            &&& t2.subrange(0, t.len() as int) == t
            &&& ns.no_duplicates()
            &&& forall|x: int|
                0 <= x < ns.len() ==> t2[t.len() + x] == (#[trigger] ns[x], Option::<
                    NodeView,
                >::None)
            &&& forall|x: int| 0 <= x < ns.len() ==> !has_key(t, #[trigger] ns[x])
            &&& forall|x: int|
                0 <= x < ns.len() ==> exists|c: int|
                    i <= c < chunks.len() && chunks[c] == (ChunkView::Inc {
                        target: #[trigger] ns[x],
                    })
            &&& forall|k: Seq<u8>|
                has_key(t, k) ==> #[trigger] entry_lookup(t2, k) == entry_lookup(t, k)
            &&& forall|c: int|
                i <= c < chunks.len() ==> match #[trigger] chunks[c] {
                    ChunkView::Inc { target } => has_key(t2, target),
                    ChunkView::Text { .. } => true,
                }
        }),
    decreases chunks.len() - i,
{
    let t2 = spec_absorb(t, chunks, i).0;
    let ns = spec_absorb(t, chunks, i).1;
    if i >= chunks.len() {
        assert(t2.subrange(0, t.len() as int) =~= t);
    } else {
        match chunks[i] {
            ChunkView::Text { .. } => {
                lemma_absorb_props(t, chunks, i + 1);
            },
            ChunkView::Inc { target } => {
                if has_key(t, target) {
                    lemma_absorb_props(t, chunks, i + 1);
                    assert(entry_lookup(t2, target) == entry_lookup(t, target));
                } else {
                    let tp = t.push((target, Option::<NodeView>::None));
                    lemma_absorb_props(tp, chunks, i + 1);
                    let rec = spec_absorb(tp, chunks, i + 1);
                    assert(t2 == rec.0 && ns == seq![target] + rec.1);
                    assert(tp.subrange(0, t.len() as int) =~= t);
                    assert(t2.subrange(0, t.len() as int) =~= t) by {
                        assert(t2.subrange(0, tp.len() as int) == tp);
                        assert forall|j: int| 0 <= j < t.len() implies t2.subrange(
                            0,
                            t.len() as int,
                        )[j] == t[j] by {
                            assert(t2[j] == t2.subrange(0, tp.len() as int)[j]);
                        }
                    }
                    // the pushed key answers lookups in tp
                    lemma_lookup_push(t, target, (target, Option::<NodeView>::None));
                    assert(has_key(tp, target));
                    // freshness of the tail targets against t
                    assert forall|x: int| 0 <= x < ns.len() implies !has_key(
                        t,
                        #[trigger] ns[x],
                    ) by {
                        if x == 0 {
                            assert(ns[x] == target);
                        } else {
                            assert(ns[x] == rec.1[x - 1]);
                            if has_key(t, ns[x]) {
                                lemma_lookup_push(t, ns[x], (target, Option::<NodeView>::None));
                                assert(has_key(tp, ns[x]));
                            }
                        }
                    }
                    // distinctness
                    assert forall|a: int, b: int|
                        0 <= a < b < ns.len() implies ns[a] != ns[b] by {
                        if a == 0 {
                            assert(ns[b] == rec.1[b - 1]);
                            assert(!has_key(tp, rec.1[b - 1]));
                            assert(ns[a] == target);
                        } else {
                            assert(ns[a] == rec.1[a - 1] && ns[b] == rec.1[b - 1]);
                            assert(rec.1.no_duplicates());
                        }
                    }
                    assert(ns.no_duplicates());
                    // the appended entries
                    assert forall|x: int| 0 <= x < ns.len() implies t2[t.len() + x] == (
                    #[trigger] ns[x], Option::<NodeView>::None) by {
                        if x == 0 {
                            assert(t2[t.len() as int] == t2.subrange(0, tp.len() as int)[t.len() as int]);
                            assert(t2[t.len() as int] == tp[t.len() as int]);
                        } else {
                            assert(t2[tp.len() + (x - 1)] == (rec.1[x - 1], Option::<
                                NodeView,
                            >::None));
                        }
                    }
                    // lookups of keys present in t survive
                    assert forall|k: Seq<u8>| has_key(t, k) implies #[trigger] entry_lookup(t2, k)
                        == entry_lookup(t, k) by {
                        lemma_lookup_push(t, k, (target, Option::<NodeView>::None));
                        assert(entry_lookup(tp, k) == entry_lookup(t, k));
                    }
                    // the chunk targets from i on are all present in t2
                    assert forall|c: int| i <= c < chunks.len() implies match #[trigger] chunks[c] {
                        ChunkView::Inc { target: tc } => has_key(t2, tc),
                        ChunkView::Text { .. } => true,
                    } by {
                        if c == i {
                            assert(entry_lookup(t2, target) == entry_lookup(tp, target));
                        }
                    }
                    // the targets come from the chunks
                    assert forall|x: int| 0 <= x < ns.len() implies exists|c: int|
                        i <= c < chunks.len() && chunks[c] == (ChunkView::Inc {
                            target: #[trigger] ns[x],
                        }) by {
                        if x == 0 {
                            assert(chunks[i] == (ChunkView::Inc { target: ns[0] }));
                        } else {
                            let c = choose|c: int|
                                i + 1 <= c < chunks.len() && chunks[c] == (ChunkView::Inc {
                                    target: rec.1[x - 1],
                                });
                            assert(chunks[c] == (ChunkView::Inc { target: ns[x] }));
                        }
                    }
                }
            },
        }
    }
}

/// A table with distinct keys drawn from a finite set is no larger than
/// that set.
pub proof fn lemma_table_size_bound(t: TableView, allowed: Set<Seq<u8>>)
    requires
        keys_distinct(t),
        allowed.finite(),
        forall|j: int| 0 <= j < t.len() ==> allowed.contains(#[trigger] t[j].0),
    ensures
        t.len() <= allowed.len(),
{
    let keys = t.map_values(|e: (Seq<u8>, Option<NodeView>)| e.0);
    assert forall|a: int, b: int|
        0 <= a < keys.len() && 0 <= b < keys.len() && a != b implies keys[a] != keys[b] by {
        assert(keys[a] == t[a].0 && keys[b] == t[b].0);
    }
    assert(keys.no_duplicates());
    keys.unique_seq_to_set();
    assert forall|x: Seq<u8>| keys.to_set().contains(x) implies allowed.contains(x) by {
        let j = choose|j: int| 0 <= j < keys.len() && keys[j] == x;
        assert(t[j].0 == x);
    }
    assert(keys.to_set().subset_of(allowed));
    vstd::set_lib::lemma_len_subset(keys.to_set(), allowed);
}

} // verus!

verus! {

/// What one `on_parsed` step does to the table, entry by entry: the node's
/// key turns loaded, its fresh targets are appended pending, and every
/// other entry stands untouched.
pub proof fn lemma_on_parsed_props(t: TableView, nv: NodeView)
    requires
        table_wf(t),
        entry_lookup(t, nv.path) == Some(Option::<NodeView>::None),
    ensures
        ({
            let (t2, ns) = spec_on_parsed(t, nv);
            &&& t2.len() == t.len() + ns.len()
            &&& ns.no_duplicates()
            &&& forall|x: int|
                0 <= x < ns.len() ==> !has_key(t, #[trigger] ns[x]) && node_has_target(nv, ns[x])
                    && ns[x] != nv.path
            &&& forall|x: int|
                0 <= x < ns.len() ==> #[trigger] entry_lookup(t2, ns[x]) == Some(Option::<
                    NodeView,
                >::None)
            &&& entry_lookup(t2, nv.path) == Some(Some(nv))
            &&& forall|k: Seq<u8>|
                k != nv.path && has_key(t, k) ==> #[trigger] entry_lookup(t2, k) == entry_lookup(
                    t,
                    k,
                )
            &&& forall|k: Seq<u8>|
                #[trigger] has_key(t2, k) <==> has_key(t, k) || ns.contains(k)
        }),
{
    let t1 = spec_absorb(t, nv.chunks, 0).0;
    let ns = spec_absorb(t, nv.chunks, 0).1;
    let t2 = spec_on_parsed(t, nv).0;
    lemma_absorb_props(t, nv.chunks, 0);
    assert(t2 == set_loaded(t1, nv.path, nv));
    assert(t2.len() == t1.len());
    // fresh targets differ from the node's own key, which t holds
    assert forall|x: int| 0 <= x < ns.len() implies !has_key(t, #[trigger] ns[x])
        && node_has_target(nv, ns[x]) && ns[x] != nv.path by {
        let c = choose|c: int|
            0 <= c < nv.chunks.len() && nv.chunks[c] == (ChunkView::Inc { target: ns[x] });
        assert(node_has_target(nv, ns[x]));
    }
    // lookups after loading the node's key
    assert forall|x: int| 0 <= x < ns.len() implies #[trigger] entry_lookup(t2, ns[x]) == Some(
        Option::<NodeView>::None,
    ) by {
        assert(entry_lookup(t1, ns[x]) == Some(Option::<NodeView>::None)) by {
            lemma_absorb_entry_pending(t, nv.chunks, ns, t1, x);
        }
        lemma_lookup_set_loaded(t1, nv.path, nv, ns[x]);
    }
    assert(entry_lookup(t1, nv.path) == entry_lookup(t, nv.path));
    lemma_lookup_set_loaded(t1, nv.path, nv, nv.path);
    assert forall|k: Seq<u8>| k != nv.path && has_key(t, k) implies #[trigger] entry_lookup(t2, k)
        == entry_lookup(t, k) by {
        lemma_lookup_set_loaded(t1, nv.path, nv, k);
    }
    assert forall|k: Seq<u8>| #[trigger] has_key(t2, k) <==> has_key(t, k) || ns.contains(k) by {
        lemma_lookup_set_loaded(t1, nv.path, nv, k);
        if has_key(t2, k) {
            assert(has_key(t1, k));
            lemma_lookup_witness(t1, k);
            let j = choose|j: int|
                0 <= j < t1.len() && t1[j].0 == k && #[trigger] t1[j].1 == entry_lookup(
                    t1,
                    k,
                )->Some_0;
            if j < t.len() {
                assert(t1[j] == t1.subrange(0, t.len() as int)[j]);
                assert(t[j].0 == k);
                if !has_key(t, k) {
                    lemma_lookup_absent(t, k);
                }
            } else {
                assert(t1[j] == (ns[j - t.len()], Option::<NodeView>::None));
                assert(ns.contains(k)) by {
                    assert(ns[j - t.len()] == k);
                }
            }
        }
        if has_key(t, k) {
            assert(has_key(t1, k));
        }
        if ns.contains(k) {
            let x = choose|x: int| 0 <= x < ns.len() && ns[x] == k;
            assert(entry_lookup(t1, ns[x]) == Some(Option::<NodeView>::None)) by {
                lemma_absorb_entry_pending(t, nv.chunks, ns, t1, x);
            }
            assert(has_key(t1, k));
        }
    }
}

/// The appended entry of each fresh target answers as pending.
proof fn lemma_absorb_entry_pending(
    t: TableView,
    chunks: Seq<ChunkView>,
    ns: Seq<Seq<u8>>,
    t1: TableView,
    x: int,
)
    requires
        spec_absorb(t, chunks, 0) == (t1, ns),
        0 <= x < ns.len(),
    ensures
        entry_lookup(t1, ns[x]) == Some(Option::<NodeView>::None),
{
    lemma_absorb_props(t, chunks, 0);
    assert(t1[t.len() + x] == (ns[x], Option::<NodeView>::None));
    if entry_lookup(t1, ns[x]) is None {
        lemma_lookup_absent(t1, ns[x]);
    }
    lemma_lookup_witness(t1, ns[x]);
    let j = choose|j: int|
        0 <= j < t1.len() && t1[j].0 == ns[x] && #[trigger] t1[j].1 == entry_lookup(
            t1,
            ns[x],
        )->Some_0;
    if j < t.len() {
        assert(t1[j] == t1.subrange(0, t.len() as int)[j]);
        assert(t[j].0 == ns[x]);
        if !has_key(t, ns[x]) {
            lemma_lookup_absent(t, ns[x]);
        }
        assert(false);
    } else {
        assert(t1[j] == (ns[j - t.len()], Option::<NodeView>::None));
    }
}

} // verus!

verus! {

proof fn lemma_no_pending_all_loaded_from(t: TableView, i: int)
    requires
        0 <= i <= t.len(),
        pending_count_from(t, i) == 0,
    ensures
        forall|j: int| i <= j < t.len() ==> (#[trigger] t[j].1) is Some,
    decreases t.len() - i,
{
    if i < t.len() {
        lemma_pending_count_from_nonneg(t, i + 1);
        lemma_no_pending_all_loaded_from(t, i + 1);
    }
}

/// With no pending entries, every entry is loaded.
pub proof fn lemma_no_pending_all_loaded(t: TableView)
    requires
        pending_count(t) == 0,
    ensures
        forall|j: int| 0 <= j < t.len() ==> (#[trigger] t[j].1) is Some,
{
    lemma_no_pending_all_loaded_from(t, 0);
}

/// The finished include graph: every key loaded, closed under include
/// targets, with the entry's key present.
pub struct Parsed {
    lookup: Vec<(Vec<u8>, LoadState)>,
    root_key: Vec<u8>,
}

/// The mathematical content of a `Parsed` graph.
pub struct ParsedView {
    pub entries: TableView,
    pub root: Seq<u8>,
}

impl ParsedView {
    /// The graph's invariant: a well-formed table, nothing pending, the
    /// root present.
    pub open spec fn wf(self) -> bool {
        &&& table_wf(self.entries)
        &&& pending_count(self.entries) == 0
        &&& has_key(self.entries, self.root)
    }

    /// The node loaded for a key.
    pub open spec fn node_at(self, key: Seq<u8>) -> Option<NodeView> {
        match entry_lookup(self.entries, key) {
            Some(st) => st,
            None => None,
        }
    }
}

impl View for Parsed {
    type V = ParsedView;

    closed spec fn view(&self) -> ParsedView {
        ParsedView { entries: table_views(self.lookup@), root: self.root_key@ }
    }
}

impl Loader {
    /// Closes a completed run: with no parse outstanding, every key of the
    /// table is loaded and the graph is ready to replay.
    pub fn finish(self) -> (r: Parsed)
        requires
            self@.wf(),
            self@.balance == 0,
        ensures
            r@.entries == self@.entries,
            r@.root == self@.root,
            r@.wf(),
    {
        let Loader { entries, root_key, balance } = self;
        Parsed { lookup: entries, root_key }
    }
}

impl Parsed {
    /// The node loaded for `key`, the graph's identity being the canonical
    /// path itself.
    pub fn get_by_key(&self, key: &Vec<u8>) -> (r: Option<&ParsedNode>)
        ensures
            match r {
                Some(node) => self@.node_at(key@) == Some(node@),
                None => self@.node_at(key@) is None,
            },
    {
        match table_lookup(&self.lookup, key) {
            Some(st) => st.loaded(),
            None => None,
        }
    }

    /// The node loaded for a canonical path; paths are the keys, so this
    /// is the same lookup as by key.
    pub fn get_by_path(&self, path: &Vec<u8>) -> (r: Option<&ParsedNode>)
        ensures
            match r {
                Some(node) => self@.node_at(path@) == Some(node@),
                None => self@.node_at(path@) is None,
            },
    {
        self.get_by_key(path)
    }
}

} // verus!

verus! {

/// In a fully loaded, correct, closed table, every chain of accepted
/// parses that starts at a present key ends at a present key.
proof fn lemma_chain_stays(
    store: crate::file_store::FileStoreView,
    sp: crate::search_paths::SearchPathsView,
    g: TableView,
    ks: Seq<Seq<u8>>,
)
    requires
        ks.len() >= 1,
        chain_ok(store, sp, ks),
        has_key(g, ks.first()),
        table_wf(g),
        forall|j: int| 0 <= j < g.len() ==> (#[trigger] g[j].1) is Some,
        forall|k: Seq<u8>|
            match #[trigger] entry_lookup(g, k) {
                Some(st) => match st {
                    Some(nv) => crate::node::spec_parse_node(store, sp, k) == Ok::<
                        NodeView,
                        crate::errors::ErrorView,
                    >(nv),
                    None => true,
                },
                None => true,
            },
    ensures
        has_key(g, ks.last()),
    decreases ks.len(),
{
    if ks.len() >= 2 {
        let ks0 = ks.drop_last();
        assert forall|i: int| 0 <= i < ks0.len() - 1 implies {
            &&& (#[trigger] crate::node::spec_parse_node(store, sp, ks0[i])) is Ok
            &&& node_has_target(
                crate::node::spec_parse_node(store, sp, ks0[i])->Ok_0,
                ks0[i + 1],
            )
        } by {
            assert(ks0[i] == ks[i] && ks0[i + 1] == ks[i + 1]);
        }
        assert(chain_ok(store, sp, ks0));
        assert(ks0.first() == ks.first());
        lemma_chain_stays(store, sp, g, ks0);
        let k2 = ks0.last();
        assert(k2 == ks[ks.len() - 2]);
        assert((crate::node::spec_parse_node(store, sp, k2)) is Ok && node_has_target(
            crate::node::spec_parse_node(store, sp, k2)->Ok_0,
            ks.last(),
        )) by {
            assert(0 <= ks.len() - 2 < ks.len() - 1);
        }
        lemma_lookup_witness(g, k2);
        let j = choose|j: int|
            0 <= j < g.len() && g[j].0 == k2 && #[trigger] g[j].1 == entry_lookup(g, k2)->Some_0;
        let nv = g[j].1->Some_0;
        assert(entry_lookup(g, k2) == Some(g[j].1)) by {
            lemma_lookup_found(g, j);
        }
        assert(crate::node::spec_parse_node(store, sp, k2) == Ok::<
            NodeView,
            crate::errors::ErrorView,
        >(nv));
        let c = choose|c: int|
            0 <= c < nv.chunks.len() && nv.chunks[c] == (ChunkView::Inc { target: ks.last() });
        assert(match g[j].1->Some_0.chunks[c] {
            ChunkView::Inc { target } => has_key(g, target),
            ChunkView::Text { .. } => true,
        });
    }
}

impl Parsed {
    /// Loads the transitive include set of the entry file: the entry is
    /// canonicalized and parsed, every include target a parse yields is
    /// parsed in turn, exactly once per canonical path, until nothing is
    /// outstanding.  The result holds every reachable file, or the first
    /// failure met.
    pub fn try_init(entry_point: &Vec<u8>, search_paths: &SearchPaths, store: &FileStore) -> (r:
        Result<Parsed, Error>)
        ensures
            match r {
                Ok(parsed) => ({
                    &&& parsed@.wf()
                    &&& store@.canon_of(entry_point@) == Some(parsed@.root)
                    &&& forall|j: int|
                        0 <= j < parsed@.entries.len()
                            ==> crate::node::spec_parse_node(
                            store@,
                            search_paths@,
                            (#[trigger] parsed@.entries[j]).0,
                        ) == Ok::<NodeView, crate::errors::ErrorView>(
                            parsed@.entries[j].1->Some_0,
                        )
                    &&& forall|k: Seq<u8>|
                        #[trigger] has_key(parsed@.entries, k) <==> reaches(
                            store@,
                            search_paths@,
                            parsed@.root,
                            k,
                        )
                }),
                Err(e) => ({
                    ||| (store@.canon_of(entry_point@) is None && e@
                        == crate::errors::ErrorView::IO(entry_point@))
                    ||| (store@.canon_of(entry_point@) is Some && exists|k: Seq<u8>|
                        reaches(store@, search_paths@, store@.canon_of(entry_point@)->Some_0, k)
                            && #[trigger] crate::node::spec_parse_node(store@, search_paths@, k)
                            == Err::<NodeView, crate::errors::ErrorView>(e@))
                }),
            },
    {
        let root_canon: Vec<u8> = match store.canon_of(entry_point) {
            Some(c) => crate::util::clone_bytes(c),
            None => {
                return Err(Error::io_for(entry_point));
            },
        };
        let ghost rootc = root_canon@;
        let seed = crate::util::clone_bytes(&root_canon);
        let mut loader = Loader::new(root_canon);
        let mut work: Vec<Vec<u8>> = Vec::new();
        work.push(seed);
        proof {
            lemma_reaches_entry(store@, search_paths@, rootc);
            assert(seq_views(work@) =~= seq![rootc]);
            assert(loader@.entries == seq![(rootc, Option::<NodeView>::None)]);
            assert(entry_lookup(loader@.entries, rootc) == Some(Option::<NodeView>::None));
            assert forall|k: Seq<u8>|
                #[trigger] entry_lookup(loader@.entries, k) is Some implies k == rootc by {
                if k != rootc {
                    assert(entry_lookup_from(loader@.entries, k, 1) is None);
                }
            }
            assert(seq_views(work@)[0] == rootc);
            assert(seq_views(work@).contains(rootc));
        }
        while work.len() > 0
            invariant
                store@.canon_of(entry_point@) == Some(rootc),
                loader@.wf(),
                loader@.root == rootc,
                loader@.balance == work@.len(),
                seq_views(work@).no_duplicates(),
                forall|x: int|
                    0 <= x < work@.len() ==> entry_lookup(
                        loader@.entries,
                        (#[trigger] work@[x])@,
                    ) == Some(Option::<NodeView>::None),
                forall|k: Seq<u8>|
                    #[trigger] entry_lookup(loader@.entries, k) == Some(Option::<NodeView>::None)
                        ==> seq_views(work@).contains(k),
                forall|k: Seq<u8>|
                    #[trigger] has_key(loader@.entries, k) ==> reaches(
                        store@,
                        search_paths@,
                        rootc,
                        k,
                    ),
                forall|k: Seq<u8>|
                    match #[trigger] entry_lookup(loader@.entries, k) {
                        Some(st) => match st {
                            Some(nv) => crate::node::spec_parse_node(store@, search_paths@, k)
                                == Ok::<NodeView, crate::errors::ErrorView>(nv),
                            None => true,
                        },
                        None => true,
                    },
                forall|k: Seq<u8>|
                    #[trigger] has_key(loader@.entries, k) ==> (k == rootc
                        || crate::file_store::canon_keys(store@).contains(k)),
            decreases store@.files.len() + 2 - loader@.entries.len(), work@.len(),
        {
            let ghost work0 = work@;
            let path = work.pop().unwrap();
            let ghost pathv = path@;
            proof {
                assert(pathv == (work0[work0.len() - 1])@);
                assert(entry_lookup(loader@.entries, pathv) == Some(Option::<NodeView>::None));
                assert(has_key(loader@.entries, pathv));
                assert(reaches(store@, search_paths@, rootc, pathv));
                assert forall|x: int| 0 <= x < work@.len() implies seq_views(work0)[x]
                    == seq_views(work@)[x] by {
                    assert(seq_views(work0)[x] == work0[x]@);
                    assert(seq_views(work@)[x] == work@[x]@);
                    assert(work@[x] == work0[x]);
                }
                assert(seq_views(work@) =~= seq_views(work0).subrange(
                    0,
                    work0.len() - 1,
                )) by {
                    assert forall|x: int| 0 <= x < work@.len() implies seq_views(work@)[x]
                        == seq_views(work0)[x] by {
                        assert(work@[x] == work0[x]);
                    }
                }
            }
            match ParsedNode::try_parse(path, search_paths, store) {
                Err(e) => {
                    proof {
                        assert(crate::node::spec_parse_node(store@, search_paths@, pathv)
                            == Err::<NodeView, crate::errors::ErrorView>(e@));
                    }
                    return Err(e);
                },
                Ok(node) => {
                    let ghost nv = node@;
                    let ghost t_before = loader@.entries;
                    proof {
                        assert(nv.path == pathv);
                    }
                    let mut news = loader.on_parsed(node);
                    let ghost newsv = seq_views(news@);
                    proof {
                        lemma_on_parsed_props(t_before, nv);
                        crate::node::lemma_parse_node_targets(store@, search_paths@, pathv);
                    }
                    let ghost rest = work@;
                    work.append(&mut news);
                    proof {
                        let t2 = loader@.entries;
                        let wv = seq_views(work@);
                        assert(wv =~= seq_views(rest) + newsv) by {
                            assert forall|x: int| 0 <= x < work@.len() implies seq_views(work@)[x]
                                == (seq_views(rest) + newsv)[x] by {
                                if x < rest.len() {
                                    assert(work@[x] == rest[x]);
                                } else {
                                    assert(seq_views(work@)[x] == work@[x]@);
                                }
                            }
                        }
                        // the node's fresh targets are reachable in one more step
                        assert forall|x: int| 0 <= x < newsv.len() implies reaches(
                            store@,
                            search_paths@,
                            rootc,
                            newsv[x],
                        ) by {
                            lemma_reaches_step(store@, search_paths@, rootc, pathv, newsv[x]);
                        }
                        // the work items left over stay pending
                        assert forall|x: int| 0 <= x < work@.len() implies entry_lookup(
                            t2,
                            (#[trigger] work@[x])@,
                        ) == Some(Option::<NodeView>::None) by {
                            if x < rest.len() {
                                let kx = rest[x]@;
                                assert(kx == seq_views(work0)[x]);
                                assert(entry_lookup(t_before, kx) == Some(Option::<
                                    NodeView,
                                >::None));
                                assert(kx != pathv) by {
                                    assert(seq_views(work0).no_duplicates());
                                    assert(seq_views(work0)[work0.len() - 1] == pathv);
                                }
                                assert(has_key(t_before, kx));
                            } else {
                                assert(work@[x]@ == newsv[x - rest.len()]);
                            }
                        }
                        // every pending key has a work item
                        assert forall|k: Seq<u8>|
                            #[trigger] entry_lookup(t2, k) == Some(Option::<NodeView>::None)
                                implies wv.contains(k) by {
                            assert(has_key(t2, k));
                            if has_key(t_before, k) {
                                assert(k != pathv);
                                assert(entry_lookup(t_before, k) == Some(Option::<
                                    NodeView,
                                >::None));
                                let x = choose|x: int|
                                    0 <= x < seq_views(work0).len() && seq_views(work0)[x] == k;
                                assert(x < work0.len() - 1) by {
                                    if x == work0.len() - 1 {
                                        assert(seq_views(work0)[x] == pathv);
                                    }
                                }
                                assert(seq_views(rest)[x] == k);
                                assert(wv[x] == k);
                            } else {
                                assert(newsv.contains(k));
                                let x = choose|x: int| 0 <= x < newsv.len() && newsv[x] == k;
                                assert(wv[rest.len() + x] == k);
                            }
                        }
                        // distinctness of the outstanding work
                        assert forall|a: int, b: int|
                            0 <= a < wv.len() && 0 <= b < wv.len() && a != b implies wv[a]
                            != wv[b] by {
                            if a < rest.len() && b < rest.len() {
                                assert(wv[a] == seq_views(work0)[a] && wv[b] == seq_views(
                                    work0,
                                )[b]);
                            } else if a < rest.len() && b >= rest.len() {
                                assert(has_key(t_before, wv[a]));
                                assert(!has_key(t_before, wv[b]));
                            } else if a >= rest.len() && b < rest.len() {
                                assert(has_key(t_before, wv[b]));
                                assert(!has_key(t_before, wv[a]));
                            } else {
                                assert(newsv.no_duplicates());
                            }
                        }
                        assert(wv.no_duplicates());
                        // reachability and canonical bound of every key
                        assert forall|k: Seq<u8>| #[trigger] has_key(t2, k) implies reaches(
                            store@,
                            search_paths@,
                            rootc,
                            k,
                        ) && (k == rootc || crate::file_store::canon_keys(store@).contains(
                            k,
                        )) by {
                            if !has_key(t_before, k) {
                                assert(newsv.contains(k));
                                let x = choose|x: int| 0 <= x < newsv.len() && newsv[x] == k;
                                assert(node_has_target(nv, k));
                                let c = choose|c: int|
                                    0 <= c < nv.chunks.len() && nv.chunks[c] == (ChunkView::Inc {
                                        target: k,
                                    });
                                assert(crate::file_store::canon_keys(store@).contains(k));
                            }
                        }
                        // loaded entries carry their own accepted parse
                        assert forall|k: Seq<u8>|
                            match #[trigger] entry_lookup(t2, k) {
                                Some(st) => match st {
                                    Some(m) => crate::node::spec_parse_node(
                                        store@,
                                        search_paths@,
                                        k,
                                    ) == Ok::<NodeView, crate::errors::ErrorView>(m),
                                    None => true,
                                },
                                None => true,
                            } by {
                            if k == pathv {
                                assert(entry_lookup(t2, k) == Some(Some(nv)));
                            } else if has_key(t_before, k) {
                                assert(entry_lookup(t2, k) == entry_lookup(t_before, k));
                            } else if has_key(t2, k) {
                                assert(newsv.contains(k));
                                let x = choose|x: int| 0 <= x < newsv.len() && newsv[x] == k;
                                assert(entry_lookup(t2, newsv[x]) == Some(Option::<
                                    NodeView,
                                >::None));
                            }
                        }
                        // the table stays within its bound
                        crate::file_store::lemma_canon_keys_card(store@);
                        assert forall|j: int| 0 <= j < t2.len() implies crate::file_store::canon_keys(
                            store@,
                        ).insert(rootc).contains(#[trigger] t2[j].0) by {
                            lemma_lookup_found(t2, j);
                            assert(has_key(t2, t2[j].0));
                        }
                        lemma_table_size_bound(
                            t2,
                            crate::file_store::canon_keys(store@).insert(rootc),
                        );
                        assert(t2.len() <= store@.files.len() + 1);
                    }
                },
            }
        }
        proof {
            assert(loader@.balance == 0);
        }
        let parsed = loader.finish();
        proof {
            let g = parsed@.entries;
            lemma_no_pending_all_loaded(g);
            assert forall|j: int| 0 <= j < g.len() implies crate::node::spec_parse_node(
                store@,
                search_paths@,
                (#[trigger] g[j]).0,
            ) == Ok::<NodeView, crate::errors::ErrorView>(g[j].1->Some_0) by {
                lemma_lookup_found(g, j);
            }
            assert forall|k: Seq<u8>| reaches(store@, search_paths@, rootc, k) implies #[trigger]
            has_key(g, k) by {
                let ks = choose|ks: Seq<Seq<u8>>|
                    ks.len() >= 1 && ks.first() == rootc && ks.last() == k && #[trigger] chain_ok(
                        store@,
                        search_paths@,
                        ks,
                    );
                lemma_chain_stays(store@, search_paths@, g, ks);
            }
        }
        Ok(parsed)
    }
}

} // verus!

verus! {

/// The set of keys the table holds.
pub open spec fn keys_set(t: TableView) -> Set<Seq<u8>> {
    t.map_values(|e: (Seq<u8>, Option<NodeView>)| e.0).to_set()
}

/// The key set is finite.
pub proof fn lemma_keys_set_finite(t: TableView)
    ensures
        keys_set(t).finite(),
{
    broadcast use vstd::seq_lib::seq_to_set_is_finite;

}

/// A key is in the key set exactly when the table answers for it.
pub proof fn lemma_has_key_keys_set(t: TableView, k: Seq<u8>)
    ensures
        has_key(t, k) <==> keys_set(t).contains(k),
{
    let keys = t.map_values(|e: (Seq<u8>, Option<NodeView>)| e.0);
    if has_key(t, k) {
        lemma_lookup_witness(t, k);
        let j = choose|j: int|
            0 <= j < t.len() && t[j].0 == k && #[trigger] t[j].1 == entry_lookup(t, k)->Some_0;
        assert(keys[j] == k);
        assert(keys.contains(k));
    }
    if keys_set(t).contains(k) {
        let j = choose|j: int| 0 <= j < keys.len() && keys[j] == k;
        assert(t[j].0 == k);
        if !has_key(t, k) {
            lemma_lookup_absent(t, k);
        }
    }
}

impl Parsed {
    /// The underlying table of entries.
    pub(crate) fn table(&self) -> (r: &Vec<(Vec<u8>, LoadState)>)
        ensures
            table_views(r@) == self@.entries,
    {
        &self.lookup
    }

    /// The entry file's canonical path.
    pub(crate) fn root_ref(&self) -> (r: &Vec<u8>)
        ensures
            r@ == self@.root,
    {
        &self.root_key
    }
}

} // verus!

verus! {

/// The one include graph a run over `store` builds from `entry`: its keys
/// are exactly the reachable canonical paths, each loaded with its own
/// accepted parse.
pub open spec fn loaded_graph_for(
    pv: ParsedView,
    store: crate::file_store::FileStoreView,
    sp: crate::search_paths::SearchPathsView,
    entry: Seq<u8>,
) -> bool {
    &&& pv.wf()
    &&& store.canon_of(entry) == Some(pv.root)
    &&& forall|j: int|
        0 <= j < pv.entries.len() ==> crate::node::spec_parse_node(
            store,
            sp,
            (#[trigger] pv.entries[j]).0,
        ) == Ok::<NodeView, crate::errors::ErrorView>(pv.entries[j].1->Some_0)
    &&& forall|k: Seq<u8>| #[trigger] has_key(pv.entries, k) <==> reaches(store, sp, pv.root, k)
}

} // verus!
