use vstd::prelude::*;

use crate::errors::Error;
use crate::errors::ErrorView;
use crate::errors::ParseError;
use crate::errors::ParseErrorView;
use crate::errors::malformed_directive_message;
use crate::file_store::FileStore;
use crate::file_store::FileStoreView;
use crate::line_parser::classify;
use crate::line_parser::lemma_classify_advances;
use crate::line_parser::line_class_of;
use crate::line_parser::parse_line;
use crate::line_parser::Line;
use crate::line_parser::LineClass;
use crate::resolve::is_angle;
use crate::resolve::spec_resolve;
use crate::resolve::target_of;
use crate::resolve::try_resolve_include_path;
use crate::search_paths::SearchPaths;
use crate::search_paths::SearchPathsView;
use crate::util::clone_bytes;

verus! {

// One parsed file: its canonical path, its full text, a once-flag, and the
// ordered chunks that drive replay.  A chunk is either a byte range of the
// text (maximal runs of plain lines merge into one) or the canonical path
// an include directive resolved to.  Parsing reads the text line by line,
// resolving each include as it is met; the first unresolvable include or
// unclassifiable line aborts the parse with its 0-based line number.

/// One chunk of a parsed file, mathematically: a byte range of the source,
/// or a resolved include target.
pub enum ChunkView {
    Text { start: int, end: int },
    Inc { target: Seq<u8> },
}

/// The mathematical content of a `ParsedNode`.
pub struct NodeView {
    pub path: Seq<u8>,
    pub once: bool,
    pub source: Seq<u8>,
    pub chunks: Seq<ChunkView>,
}

impl NodeView {
    /// Every text chunk lies within the source.
    pub open spec fn wf(self) -> bool {
        forall|i: int|
            0 <= i < self.chunks.len() ==> match #[trigger] self.chunks[i] {
                ChunkView::Text { start, end } => 0 <= start <= end <= self.source.len(),
                ChunkView::Inc { .. } => true,
            }
    }
}

enum NodeChunkInternal {
    Text(usize, usize),
    Include(Vec<u8>),
}

impl View for NodeChunkInternal {
    type V = ChunkView;

    closed spec fn view(&self) -> ChunkView {
        match self {
            NodeChunkInternal::Text(start, end) => (ChunkView::Text {
                start: *start as int,
                end: *end as int,
            }),
            NodeChunkInternal::Include(target) => (ChunkView::Inc { target: target@ }),
        }
    }
}

spec fn chunk_views(s: Seq<NodeChunkInternal>) -> Seq<ChunkView> {
    s.map_values(|c: NodeChunkInternal| c@)
}

proof fn lemma_chunk_views_push(s: Seq<NodeChunkInternal>, c: NodeChunkInternal)
    ensures
        chunk_views(s.push(c)) == chunk_views(s).push(c@),
{
    assert forall|k: int| 0 <= k < s.len() + 1 implies chunk_views(s.push(c))[k] == chunk_views(
        s,
    ).push(c@)[k] by {
        assert(chunk_views(s.push(c))[k] == s.push(c)[k]@);
        if k < s.len() {
            assert(chunk_views(s)[k] == s[k]@);
        }
    }
    assert(chunk_views(s.push(c)) =~= chunk_views(s).push(c@));
}

/// The text chunk an unflushed run of plain lines yields: one chunk for a
/// non-empty run, nothing for an empty one.
pub open spec fn spec_flush(cs: int, ce: int) -> Seq<ChunkView> {
    if ce > cs {
        seq![ChunkView::Text { start: cs, end: ce }]
    } else {
        Seq::empty()
    }
}

/// One pass over the source from `pos`: text lines extend the open run
/// `cs..ce`, directives flush it, includes resolve at once, and the first
/// unclassifiable line or failed resolution aborts with that line's
/// number.
pub open spec fn parse_rec(
    store: FileStoreView,
    sp: SearchPathsView,
    path: Seq<u8>,
    src: Seq<u8>,
    pos: int,
    cs: int,
    ce: int,
    line: int,
    acc: Seq<ChunkView>,
    once: bool,
) -> Result<(Seq<ChunkView>, bool), ErrorView>
    decreases src.len() - pos,
        when 0 <= pos
        via parse_rec_decreases
{
    if pos >= src.len() {
        Ok((acc + spec_flush(cs, ce), once))
    } else {
        match classify(src, pos) {
            LineClass::Malformed => Err(
                ErrorView::Parse(
                    ParseErrorView {
                        message: malformed_directive_message(),
                        source_file: path,
                        source: src,
                        line_number: line,
                    },
                ),
            ),
            LineClass::Text { next } => parse_rec(
                store,
                sp,
                path,
                src,
                next,
                cs,
                next,
                line + 1,
                acc,
                once,
            ),
            LineClass::PragmaOnce { next } => parse_rec(
                store,
                sp,
                path,
                src,
                next,
                next,
                next,
                line + 1,
                acc + spec_flush(cs, ce),
                true,
            ),
            LineClass::Include { angle, target, next } => match spec_resolve(
                store,
                sp,
                angle,
                target,
                path,
                src,
                line,
            ) {
                Ok(resolved) => parse_rec(
                    store,
                    sp,
                    path,
                    src,
                    next,
                    next,
                    next,
                    line + 1,
                    acc + spec_flush(cs, ce) + seq![ChunkView::Inc { target: resolved }],
                    once,
                ),
                Err(e) => Err(e),
            },
        }
    }
}

#[via_fn]
proof fn parse_rec_decreases(
    store: FileStoreView,
    sp: SearchPathsView,
    path: Seq<u8>,
    src: Seq<u8>,
    pos: int,
    cs: int,
    ce: int,
    line: int,
    acc: Seq<ChunkView>,
    once: bool,
) {
    if 0 <= pos < src.len() {
        lemma_classify_advances(src, pos);
    }
}

/// What parsing the file at a canonical path returns: its node, or the
/// I/O failure when the store holds no content for it, or the first
/// line-level failure.
pub open spec fn spec_parse_node(
    store: FileStoreView,
    sp: SearchPathsView,
    path: Seq<u8>,
) -> Result<NodeView, ErrorView> {
    match store.content_of(path) {
        None => Err(ErrorView::IO(path)),
        Some(src) => match parse_rec(store, sp, path, src, 0, 0, 0, 0, Seq::empty(), false) {
            Ok((chunks, once)) => Ok(NodeView { path, once, source: src, chunks }),
            Err(e) => Err(e),
        },
    }
}

/// A borrowed text chunk: a byte range of a node's source and the bytes it
/// spans.
pub struct TextChunk<'a> {
    pub start: usize,
    pub end: usize,
    pub text: &'a [u8],
}

impl<'a> TextChunk<'a> {
    /// The bytes the chunk spans.
    pub fn text(&self) -> (r: &'a [u8])
        ensures
            r == self.text,
    {
        self.text
    }

    /// The chunk's byte range in the owning node's source.
    pub fn byte_range(&self) -> (r: (usize, usize))
        ensures
            r == (self.start, self.end),
    {
        (self.start, self.end)
    }
}

/// A borrowed view of one chunk of a node.
pub enum NodeChunk<'a> {
    Text(TextChunk<'a>),
    Include(&'a Vec<u8>),
}

/// How a borrowed chunk corresponds to a chunk of the node's model.
pub open spec fn chunk_matches(c: NodeChunk, cv: ChunkView, src: Seq<u8>) -> bool {
    match c {
        NodeChunk::Text(tc) => {
            &&& cv == (ChunkView::Text { start: tc.start as int, end: tc.end as int })
            &&& tc.text@ == src.subrange(tc.start as int, tc.end as int)
        },
        NodeChunk::Include(p) => cv == (ChunkView::Inc { target: p@ }),
    }
}

/// One parsed file.
pub struct ParsedNode {
    path: Vec<u8>,
    once: bool,
    source: Vec<u8>,
    chunk_buffer: Vec<NodeChunkInternal>,
}

impl View for ParsedNode {
    type V = NodeView;

    closed spec fn view(&self) -> NodeView {
        NodeView {
            path: self.path@,
            once: self.once,
            source: self.source@,
            chunks: chunk_views(self.chunk_buffer@),
        }
    }
}

impl ParsedNode {
    #[verifier::type_invariant]
    pub open spec fn inv(self) -> bool {
        self@.wf()
    }

    /// Reads the file at the canonical `path` out of the store and parses
    /// it, resolving every include directive it holds.
    pub fn try_parse(path: Vec<u8>, search_paths: &SearchPaths, store: &FileStore) -> (r: Result<
        ParsedNode,
        Error,
    >)
        ensures
            match r {
                Ok(node) => spec_parse_node(store@, search_paths@, path@) == Ok::<
                    NodeView,
                    ErrorView,
                >(node@),
                Err(e) => spec_parse_node(store@, search_paths@, path@) == Err::<
                    NodeView,
                    ErrorView,
                >(e@),
            },
    {
        let source: Vec<u8> = match store.content_of(&path) {
            Some(t) => clone_bytes(t),
            None => {
                return Err(Error::io_for(&path));
            },
        };
        let mut chunk_buffer: Vec<NodeChunkInternal> = Vec::new();
        let mut once = false;
        let mut pos: usize = 0;
        let mut cs: usize = 0;
        let mut ce: usize = 0;
        let mut line_number: usize = 0;
        proof {
            assert(chunk_views(chunk_buffer@) =~= Seq::<ChunkView>::empty());
        }
        while pos < source.len()
            invariant
                0 <= cs <= ce <= pos <= source@.len(),
                line_number <= pos,
                store@.content_of(path@) == Some(source@),
                forall|k: int|
                    0 <= k < chunk_buffer@.len() ==> match #[trigger] chunk_buffer@[k]@ {
                        ChunkView::Text { start, end } => 0 <= start <= end <= source@.len(),
                        ChunkView::Inc { .. } => true,
                    },
                parse_rec(
                    store@,
                    search_paths@,
                    path@,
                    source@,
                    pos as int,
                    cs as int,
                    ce as int,
                    line_number as int,
                    chunk_views(chunk_buffer@),
                    once,
                ) == parse_rec(
                    store@,
                    search_paths@,
                    path@,
                    source@,
                    0,
                    0,
                    0,
                    0,
                    Seq::empty(),
                    false,
                ),
            decreases source@.len() - pos,
        {
            match parse_line(source.as_slice(), pos) {
                Err(_) => {
                    proof {
                        assert(classify(source@, pos as int) is Malformed);
                    }
                    return Err(
                        Error::Parse(ParseError::new(path, source, line_number)),
                    );
                },
                Ok((line, next)) => {
                    match line {
                        Line::Text => {
                            proof {
                                assert(classify(source@, pos as int) == (LineClass::Text {
                                    next: next as int,
                                }));
                            }
                            ce = next;
                        },
                        Line::PragmaOnce => {
                            proof {
                                assert(classify(source@, pos as int) == (LineClass::PragmaOnce {
                                    next: next as int,
                                }));
                            }
                            let ghost buf0 = chunk_buffer@;
                            if ce > cs {
                                chunk_buffer.push(NodeChunkInternal::Text(cs, ce));
                                proof {
                                    lemma_chunk_views_push(buf0, NodeChunkInternal::Text(cs, ce));
                                }
                            }
                            proof {
                                assert(chunk_views(chunk_buffer@) =~= chunk_views(buf0)
                                    + spec_flush(cs as int, ce as int));
                            }
                            once = true;
                            cs = next;
                            ce = next;
                        },
                        Line::Include(ip) => {
                            proof {
                                assert(classify(source@, pos as int) == line_class_of(
                                    Line::Include(ip),
                                    next as int,
                                ));
                            }
                            match try_resolve_include_path(
                                &ip,
                                (&path, &source, line_number),
                                search_paths,
                                store,
                            ) {
                                Err(e) => {
                                    proof {
                                        assert(spec_resolve(
                                            store@,
                                            search_paths@,
                                            is_angle(ip),
                                            target_of(ip),
                                            path@,
                                            source@,
                                            line_number as int,
                                        ) == Err::<Seq<u8>, ErrorView>(e@));
                                    }
                                    return Err(e);
                                },
                                Ok(resolved) => {
                                    let ghost buf0 = chunk_buffer@;
                                    let ghost rv = resolved@;
                                    if ce > cs {
                                        chunk_buffer.push(NodeChunkInternal::Text(cs, ce));
                                        proof {
                                            lemma_chunk_views_push(
                                                buf0,
                                                NodeChunkInternal::Text(cs, ce),
                                            );
                                        }
                                    }
                                    let ghost buf1 = chunk_buffer@;
                                    proof {
                                        assert(chunk_views(buf1) =~= chunk_views(buf0)
                                            + spec_flush(cs as int, ce as int));
                                    }
                                    chunk_buffer.push(NodeChunkInternal::Include(resolved));
                                    proof {
                                        lemma_chunk_views_push(
                                            buf1,
                                            NodeChunkInternal::Include(resolved),
                                        );
                                        assert(chunk_views(chunk_buffer@) =~= chunk_views(buf0)
                                            + spec_flush(cs as int, ce as int) + seq![
                                            ChunkView::Inc { target: rv },
                                        ]);
                                    }
                                    cs = next;
                                    ce = next;
                                },
                            }
                        },
                    }
                    pos = next;
                    line_number += 1;
                },
            }
        }
        let ghost buf0 = chunk_buffer@;
        if ce > cs {
            chunk_buffer.push(NodeChunkInternal::Text(cs, ce));
            proof {
                lemma_chunk_views_push(buf0, NodeChunkInternal::Text(cs, ce));
            }
        }
        proof {
            assert(chunk_views(chunk_buffer@) =~= chunk_views(buf0) + spec_flush(
                cs as int,
                ce as int,
            ));
        }
        let node = ParsedNode { path, once, source, chunk_buffer };
        proof {
            assert(node@.wf());
        }
        Ok(node)
    }

    /// The node's canonical path.
    pub fn path(&self) -> (r: &Vec<u8>)
        ensures
            r@ == self@.path,
    {
        &self.path
    }

    /// The node's identity key: the canonical path itself, so that two
    /// distinct paths can never collide.
    pub fn key(&self) -> (r: &Vec<u8>)
        ensures
            r@ == self@.path,
    {
        &self.path
    }

    /// The full text of the file.
    pub fn source(&self) -> (r: &Vec<u8>)
        ensures
            r@ == self@.source,
    {
        &self.source
    }

    /// Whether the file held a once-guard anywhere.
    pub fn once(&self) -> (r: bool)
        ensures
            r == self@.once,
    {
        self.once
    }

    /// How many chunks the node holds.
    pub fn chunk_count(&self) -> (r: usize)
        ensures
            r as int == self@.chunks.len(),
    {
        self.chunk_buffer.len()
    }

    /// The chunk at `index`, when there is one.
    pub fn get_chunk(&self, index: usize) -> (r: Option<NodeChunk>)
        ensures
            match r {
                Some(c) => index < self@.chunks.len() && chunk_matches(
                    c,
                    self@.chunks[index as int],
                    self@.source,
                ),
                None => index >= self@.chunks.len(),
            },
    {
        proof {
            use_type_invariant(self);
        }
        if index >= self.chunk_buffer.len() {
            return None;
        }
        proof {
            assert(self@.chunks[index as int] == self.chunk_buffer@[index as int]@);
        }
        match &self.chunk_buffer[index] {
            NodeChunkInternal::Text(start, end) => {
                let text = vstd::slice::slice_subrange(self.source.as_slice(), *start, *end);
                Some(NodeChunk::Text(TextChunk { start: *start, end: *end, text }))
            },
            NodeChunkInternal::Include(target) => Some(NodeChunk::Include(target)),
        }
    }

    /// All chunks of the node, in file order.
    pub fn chunks(&self) -> (r: Vec<NodeChunk>)
        ensures
            r@.len() == self@.chunks.len(),
            forall|k: int|
                0 <= k < r@.len() ==> chunk_matches(r@[k], self@.chunks[k], self@.source),
    {
        let mut out: Vec<NodeChunk> = Vec::new();
        let mut i: usize = 0;
        while i < self.chunk_buffer.len()
            invariant
                0 <= i <= self.chunk_buffer@.len(),
                self@.chunks.len() == self.chunk_buffer@.len(),
                out@.len() == i,
                forall|k: int|
                    0 <= k < i ==> chunk_matches(out@[k], self@.chunks[k], self@.source),
            decreases self.chunk_buffer@.len() - i,
        {
            match self.get_chunk(i) {
                Some(c) => {
                    out.push(c);
                },
                None => {
                    proof {
                        assert(false);
                    }
                },
            }
            i += 1;
        }
        out
    }
}

} // verus!

verus! {

/// Every include target an accepted parse yields names one of the store's
/// canonical paths, given that the accumulated targets already do.
proof fn lemma_parse_rec_targets(
    store: FileStoreView,
    sp: SearchPathsView,
    path: Seq<u8>,
    src: Seq<u8>,
    pos: int,
    cs: int,
    ce: int,
    line: int,
    acc: Seq<ChunkView>,
    once: bool,
)
    requires
        0 <= pos,
        forall|c: int|
            0 <= c < acc.len() ==> match #[trigger] acc[c] {
                ChunkView::Inc { target } => crate::file_store::canon_keys(store).contains(target),
                ChunkView::Text { .. } => true,
            },
    ensures
        match parse_rec(store, sp, path, src, pos, cs, ce, line, acc, once) {
            Ok((chunks, o)) => forall|c: int|
                0 <= c < chunks.len() ==> match #[trigger] chunks[c] {
                    ChunkView::Inc { target } => crate::file_store::canon_keys(store).contains(
                        target,
                    ),
                    ChunkView::Text { .. } => true,
                },
            Err(_) => true,
        },
    decreases src.len() - pos,
{
    if pos >= src.len() {
        assert(forall|c: int|
            0 <= c < acc.len() ==> (acc + spec_flush(cs, ce))[c] == acc[c]);
    } else {
        lemma_classify_advances(src, pos);
        match classify(src, pos) {
            LineClass::Malformed => {},
            LineClass::Text { next } => {
                lemma_parse_rec_targets(store, sp, path, src, next, cs, next, line + 1, acc, once);
            },
            LineClass::PragmaOnce { next } => {
                let acc2 = acc + spec_flush(cs, ce);
                assert(forall|c: int| 0 <= c < acc.len() ==> acc2[c] == acc[c]);
                lemma_parse_rec_targets(
                    store,
                    sp,
                    path,
                    src,
                    next,
                    next,
                    next,
                    line + 1,
                    acc2,
                    true,
                );
            },
            LineClass::Include { angle, target, next } => {
                match spec_resolve(store, sp, angle, target, path, src, line) {
                    Ok(resolved) => {
                        crate::resolve::lemma_resolve_in_canon_keys(
                            store,
                            sp,
                            angle,
                            target,
                            path,
                            src,
                            line,
                        );
                        let acc2 = acc + spec_flush(cs, ce) + seq![
                            ChunkView::Inc { target: resolved },
                        ];
                        assert(forall|c: int| 0 <= c < acc.len() ==> acc2[c] == acc[c]);
                        assert(acc2[acc2.len() - 1] == (ChunkView::Inc { target: resolved }));
                        lemma_parse_rec_targets(
                            store,
                            sp,
                            path,
                            src,
                            next,
                            next,
                            next,
                            line + 1,
                            acc2,
                            once,
                        );
                    },
                    Err(_) => {},
                }
            },
        }
    }
}

/// Every include target of a parsed node names one of the store's
/// canonical paths.
pub proof fn lemma_parse_node_targets(store: FileStoreView, sp: SearchPathsView, path: Seq<u8>)
    requires
        spec_parse_node(store, sp, path) is Ok,
    ensures
        forall|c: int|
            0 <= c < spec_parse_node(store, sp, path)->Ok_0.chunks.len()
                ==> match #[trigger] spec_parse_node(store, sp, path)->Ok_0.chunks[c] {
                ChunkView::Inc { target } => crate::file_store::canon_keys(store).contains(target),
                ChunkView::Text { .. } => true,
            },
{
    let src = store.content_of(path)->Some_0;
    lemma_parse_rec_targets(store, sp, path, src, 0, 0, 0, 0, Seq::empty(), false);
}

} // verus!
