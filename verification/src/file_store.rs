use vstd::prelude::*;

use crate::util::bytes_eq;
use crate::util::lemma_pair_views_push;
use crate::util::pair_views;

verus! {

// The file system as data.
//
// The engine never touches a disk: it works against a `FileStore`, two
// association lists recording which probed paths name existing files (and
// the canonical form of each), and what bytes each canonical path holds.
// A caller fills the store, from a real file system or by hand, before the
// engine runs; within one run the store is read-only, which is what makes
// resolution and loading deterministic.

/// Association lookup: the value of the first entry whose key matches.
pub open spec fn lookup_from(entries: Seq<(Seq<u8>, Seq<u8>)>, key: Seq<u8>, i: int) -> Option<
    Seq<u8>,
>
    decreases entries.len() - i,
{
    if i < 0 || i >= entries.len() {
        None
    } else if entries[i].0 == key {
        Some(entries[i].1)
    } else {
        lookup_from(entries, key, i + 1)
    }
}

pub open spec fn lookup(entries: Seq<(Seq<u8>, Seq<u8>)>, key: Seq<u8>) -> Option<Seq<u8>> {
    lookup_from(entries, key, 0)
}

/// The mathematical content of a `FileStore`.
pub struct FileStoreView {
    /// Pairs of (path that names an existing file, its canonical path).
    pub files: Seq<(Seq<u8>, Seq<u8>)>,
    /// Pairs of (canonical path, the bytes of that file).
    pub contents: Seq<(Seq<u8>, Seq<u8>)>,
}

impl FileStoreView {
    /// The canonical path behind `path`, when `path` names an existing file.
    pub open spec fn canon_of(self, path: Seq<u8>) -> Option<Seq<u8>> {
        lookup(self.files, path)
    }

    /// The bytes of the file at a canonical path.
    pub open spec fn content_of(self, canon: Seq<u8>) -> Option<Seq<u8>> {
        lookup(self.contents, canon)
    }
}

/// A snapshot of the file system, as the engine sees it.
pub struct FileStore {
    files: Vec<(Vec<u8>, Vec<u8>)>,
    contents: Vec<(Vec<u8>, Vec<u8>)>,
}

impl View for FileStore {
    type V = FileStoreView;

    closed spec fn view(&self) -> FileStoreView {
        FileStoreView { files: pair_views(self.files@), contents: pair_views(self.contents@) }
    }
}

impl FileStore {
    /// An empty snapshot: no file exists in it.
    pub fn new() -> (r: Self)
        ensures
            r@.files == Seq::<(Seq<u8>, Seq<u8>)>::empty(),
            r@.contents == Seq::<(Seq<u8>, Seq<u8>)>::empty(),
    {
        let r = FileStore { files: Vec::new(), contents: Vec::new() };
        proof {
            assert(r@.files =~= Seq::<(Seq<u8>, Seq<u8>)>::empty());
            assert(r@.contents =~= Seq::<(Seq<u8>, Seq<u8>)>::empty());
        }
        r
    }

    /// Records that `path` names an existing file whose canonical path is
    /// `canon`.
    pub fn add_file(&mut self, path: Vec<u8>, canon: Vec<u8>)
        ensures
            final(self)@.files == old(self)@.files.push((path@, canon@)),
            final(self)@.contents == old(self)@.contents,
    {
        let ghost p = path;
        let ghost c = canon;
        self.files.push((path, canon));
        proof {
            lemma_pair_views_push(old(self).files@, (p, c));
        }
    }

    /// Records the bytes held at a canonical path.
    pub fn add_content(&mut self, canon: Vec<u8>, text: Vec<u8>)
        ensures
            final(self)@.contents == old(self)@.contents.push((canon@, text@)),
            final(self)@.files == old(self)@.files,
    {
        let ghost c = canon;
        let ghost t = text;
        self.contents.push((canon, text));
        proof {
            lemma_pair_views_push(old(self).contents@, (c, t));
        }
    }

    /// Looks `path` up among the existing files.
    pub fn canon_of(&self, path: &Vec<u8>) -> (r: Option<&Vec<u8>>)
        ensures
            match r {
                Some(c) => self@.canon_of(path@) == Some(c@),
                None => self@.canon_of(path@) is None,
            },
    {
        lookup_exec(&self.files, path)
    }

    /// Looks a canonical path up among the recorded contents.
    pub fn content_of(&self, canon: &Vec<u8>) -> (r: Option<&Vec<u8>>)
        ensures
            match r {
                Some(t) => self@.content_of(canon@) == Some(t@),
                None => self@.content_of(canon@) is None,
            },
    {
        lookup_exec(&self.contents, canon)
    }
}

fn lookup_exec<'a>(entries: &'a Vec<(Vec<u8>, Vec<u8>)>, key: &Vec<u8>) -> (r: Option<&'a Vec<u8>>)
    ensures
        match r {
            Some(v) => lookup(pair_views(entries@), key@) == Some(v@),
            None => lookup(pair_views(entries@), key@) is None,
        },
{
    let ghost ev = pair_views(entries@);
    let mut i: usize = 0;
    proof {
        assert(ev.len() == entries@.len());
    }
    while i < entries.len()
        invariant
            0 <= i <= entries@.len(),
            ev == pair_views(entries@),
            ev.len() == entries@.len(),
            lookup_from(ev, key@, 0) == lookup_from(ev, key@, i as int),
        decreases entries@.len() - i,
    {
        proof {
            assert(ev[i as int] == (entries@[i as int].0@, entries@[i as int].1@));
        }
        if bytes_eq(&entries[i].0, key) {
            return Some(&entries[i].1);
        }
        i += 1;
    }
    None
}

} // verus!

verus! {

/// A successful lookup names some entry of the list.
pub proof fn lemma_lookup_some_witness(entries: Seq<(Seq<u8>, Seq<u8>)>, key: Seq<u8>)
    requires
        lookup(entries, key) is Some,
    ensures
        exists|j: int|
            0 <= j < entries.len() && entries[j].0 == key && #[trigger] entries[j].1 == lookup(
                entries,
                key,
            )->Some_0,
{
    lemma_lookup_from_some_witness(entries, key, 0);
}

proof fn lemma_lookup_from_some_witness(entries: Seq<(Seq<u8>, Seq<u8>)>, key: Seq<u8>, i: int)
    requires
        0 <= i <= entries.len(),
        lookup_from(entries, key, i) is Some,
    ensures
        exists|j: int|
            i <= j < entries.len() && entries[j].0 == key && #[trigger] entries[j].1 == lookup_from(
                entries,
                key,
                i,
            )->Some_0,
    decreases entries.len() - i,
{
    if i < entries.len() && entries[i].0 != key {
        lemma_lookup_from_some_witness(entries, key, i + 1);
    }
}

/// The canonical paths the store can ever answer with: the second parts of
/// its file entries.
pub open spec fn canon_keys(store: FileStoreView) -> Set<Seq<u8>> {
    store.files.map_values(|f: (Seq<u8>, Seq<u8>)| f.1).to_set()
}

/// Whatever `canon_of` answers lies in `canon_keys`.
pub proof fn lemma_canon_of_in_canon_keys(store: FileStoreView, path: Seq<u8>)
    requires
        store.canon_of(path) is Some,
    ensures
        canon_keys(store).contains(store.canon_of(path)->Some_0),
{
    lemma_lookup_some_witness(store.files, path);
    let j = choose|j: int|
        0 <= j < store.files.len() && store.files[j].0 == path && #[trigger] store.files[j].1
            == lookup(store.files, path)->Some_0;
    let mapped = store.files.map_values(|f: (Seq<u8>, Seq<u8>)| f.1);
    assert(mapped[j] == store.files[j].1);
    assert(mapped.to_set().contains(mapped[j]));
}

/// `canon_keys` is finite and no larger than the file list.
pub proof fn lemma_canon_keys_card(store: FileStoreView)
    ensures
        canon_keys(store).finite(),
        canon_keys(store).len() <= store.files.len(),
{
    broadcast use vstd::seq_lib::seq_to_set_is_finite;

    let mapped = store.files.map_values(|f: (Seq<u8>, Seq<u8>)| f.1);
    mapped.lemma_cardinality_of_set();
}

} // verus!
