use vstd::prelude::*;

use crate::errors::Error;
use crate::errors::ErrorView;
use crate::errors::FileNotFoundError;
use crate::errors::FileNotFoundView;
use crate::file_store::FileStore;
use crate::file_store::FileStoreView;
use crate::line_parser::IncludePath;
use crate::search_paths::spec_angle_candidates;
use crate::search_paths::spec_quote_candidates;
use crate::search_paths::angle_candidates;
use crate::search_paths::quote_candidates;
use crate::search_paths::SearchPaths;
use crate::search_paths::SearchPathsView;
use crate::util::clone_bytes;
use crate::util::seq_views;

verus! {

// Resolution of one include target to a canonical path: the candidates are
// probed in precedence order and the first that names an existing file
// wins; when none does, the failure carries the original target, the
// including file and the 0-based line of the directive.

/// The target bytes an include directive carries.
pub open spec fn target_of(ip: IncludePath) -> Seq<u8> {
    match ip {
        IncludePath::Angle(t) => t@,
        IncludePath::Quote(t) => t@,
    }
}

/// Whether an include directive is the angle kind.
pub open spec fn is_angle(ip: IncludePath) -> bool {
    ip is Angle
}

/// The canonical path of the first candidate that names an existing file,
/// scanning from `i`.
pub open spec fn first_hit(store: FileStoreView, cands: Seq<Seq<u8>>, i: int) -> Option<Seq<u8>>
    decreases cands.len() - i,
{
    if i < 0 || i >= cands.len() {
        None
    } else {
        match store.canon_of(cands[i]) {
            Some(c) => Some(c),
            None => first_hit(store, cands, i + 1),
        }
    }
}

/// The candidate list of an include, by its kind.
pub open spec fn spec_candidates(
    sp: SearchPathsView,
    angle: bool,
    target: Seq<u8>,
    from: Seq<u8>,
) -> Seq<Seq<u8>> {
    if angle {
        spec_angle_candidates(sp, target)
    } else {
        spec_quote_candidates(sp, from, target)
    }
}

/// What resolving an include returns: the canonical path of the first
/// existing candidate, or the not-found failure with its location.
pub open spec fn spec_resolve(
    store: FileStoreView,
    sp: SearchPathsView,
    angle: bool,
    target: Seq<u8>,
    from: Seq<u8>,
    src: Seq<u8>,
    line: int,
) -> Result<Seq<u8>, ErrorView> {
    match first_hit(store, spec_candidates(sp, angle, target, from), 0) {
        Some(c) => Ok(c),
        None => Err(
            ErrorView::FileNotFound(
                FileNotFoundView {
                    included_path: target,
                    source_file: from,
                    source: src,
                    line_number: line,
                },
            ),
        ),
    }
}

/// Resolves one include directive against the store.  `included_from` is
/// the including file's canonical path, its full text, and the 0-based
/// line of the directive.
pub fn try_resolve_include_path(
    include_path: &IncludePath,
    included_from: (&Vec<u8>, &Vec<u8>, usize),
    search_paths: &SearchPaths,
    store: &FileStore,
) -> (r: Result<Vec<u8>, Error>)
    ensures
        match r {
            Ok(c) => spec_resolve(
                store@,
                search_paths@,
                is_angle(*include_path),
                target_of(*include_path),
                included_from.0@,
                included_from.1@,
                included_from.2 as int,
            ) == Ok::<Seq<u8>, ErrorView>(c@),
            Err(e) => spec_resolve(
                store@,
                search_paths@,
                is_angle(*include_path),
                target_of(*include_path),
                included_from.0@,
                included_from.1@,
                included_from.2 as int,
            ) == Err::<Seq<u8>, ErrorView>(e@),
        },
{
    let ghost cv: Seq<Seq<u8>> = spec_candidates(
        search_paths@,
        is_angle(*include_path),
        target_of(*include_path),
        included_from.0@,
    );
    let cands = match include_path {
        IncludePath::Angle(t) => angle_candidates(search_paths, t),
        IncludePath::Quote(t) => quote_candidates(search_paths, included_from.0, t),
    };
    proof {
        assert(seq_views(cands@) == cv);
        assert(seq_views(cands@).len() == cands@.len());
    }
    let mut i: usize = 0;
    while i < cands.len()
        invariant
            0 <= i <= cands@.len(),
            cv == seq_views(cands@),
            cv == spec_candidates(
                search_paths@,
                is_angle(*include_path),
                target_of(*include_path),
                included_from.0@,
            ),
            cv.len() == cands@.len(),
            first_hit(store@, cv, 0) == first_hit(store@, cv, i as int),
        decreases cands@.len() - i,
    {
        proof {
            assert(cv[i as int] == cands@[i as int]@);
        }
        match store.canon_of(&cands[i]) {
            Some(c) => {
                proof {
                    assert(store@.canon_of(cv[i as int]) == Some(c@));
                    assert(first_hit(store@, cv, i as int) == Some(c@));
                    assert(first_hit(store@, cv, 0) == Some(c@));
                }
                return Ok(clone_bytes(c));
            },
            None => {},
        }
        i += 1;
    }
    let target = match include_path {
        IncludePath::Angle(t) => clone_bytes(t),
        IncludePath::Quote(t) => clone_bytes(t),
    };
    Err(
        Error::FileNotFound(
            FileNotFoundError::new(
                target,
                clone_bytes(included_from.0),
                clone_bytes(included_from.1),
                included_from.2,
            ),
        ),
    )
}

} // verus!

verus! {

proof fn lemma_first_hit_in_canon_keys(store: FileStoreView, cands: Seq<Seq<u8>>, i: int)
    requires
        first_hit(store, cands, i) is Some,
    ensures
        crate::file_store::canon_keys(store).contains(first_hit(store, cands, i)->Some_0),
    decreases cands.len() - i,
{
    if 0 <= i < cands.len() {
        if store.canon_of(cands[i]) is Some {
            crate::file_store::lemma_canon_of_in_canon_keys(store, cands[i]);
        } else {
            lemma_first_hit_in_canon_keys(store, cands, i + 1);
        }
    }
}

/// A resolved include names one of the store's canonical paths.
pub proof fn lemma_resolve_in_canon_keys(
    store: FileStoreView,
    sp: SearchPathsView,
    angle: bool,
    target: Seq<u8>,
    from: Seq<u8>,
    src: Seq<u8>,
    line: int,
)
    requires
        spec_resolve(store, sp, angle, target, from, src, line) is Ok,
    ensures
        crate::file_store::canon_keys(store).contains(
            spec_resolve(store, sp, angle, target, from, src, line)->Ok_0,
        ),
{
    lemma_first_hit_in_canon_keys(store, spec_candidates(sp, angle, target, from), 0);
}

} // verus!
