use vstd::prelude::*;

use crate::util::clone_bytes;
use crate::util::lemma_seq_views_push;
use crate::util::seq_views;

verus! {

// Search paths and the candidate order of include resolution.
//
// Paths are byte strings in POSIX form, `/`-separated.  An angle include is
// looked up in the base paths in order; a quoted include is looked up first
// next to the including file, then in the quoted paths, then in the base
// paths.  The first candidate that names an existing file wins.

/// The two ordered lists of search directories.
pub struct SearchPaths {
    base_paths: Vec<Vec<u8>>,
    quoted_paths: Vec<Vec<u8>>,
}

/// The mathematical content of a `SearchPaths` value.
pub struct SearchPathsView {
    pub base: Seq<Seq<u8>>,
    pub quoted: Seq<Seq<u8>>,
}

impl View for SearchPaths {
    type V = SearchPathsView;

    closed spec fn view(&self) -> SearchPathsView {
        SearchPathsView {
            base: seq_views(self.base_paths@),
            quoted: seq_views(self.quoted_paths@),
        }
    }
}

impl SearchPaths {
    /// Empty search paths.
    pub fn new() -> (r: Self)
        ensures
            r@.base == Seq::<Seq<u8>>::empty(),
            r@.quoted == Seq::<Seq<u8>>::empty(),
    {
        let r = SearchPaths { base_paths: Vec::new(), quoted_paths: Vec::new() };
        proof {
            assert(r@.base =~= Seq::<Seq<u8>>::empty());
            assert(r@.quoted =~= Seq::<Seq<u8>>::empty());
        }
        r
    }

    /// Appends a directory to the base paths.
    pub fn push_base_path(&mut self, path: Vec<u8>)
        ensures
            final(self)@.base == old(self)@.base.push(path@),
            final(self)@.quoted == old(self)@.quoted,
    {
        self.base_paths.push(path);
        proof {
            assert(self@.base =~= old(self)@.base.push(path@));
            assert(self@.quoted =~= old(self)@.quoted);
        }
    }

    /// Appends a directory to the quoted paths.
    pub fn push_quoted_path(&mut self, path: Vec<u8>)
        ensures
            final(self)@.quoted == old(self)@.quoted.push(path@),
            final(self)@.base == old(self)@.base,
    {
        self.quoted_paths.push(path);
        proof {
            assert(self@.quoted =~= old(self)@.quoted.push(path@));
            assert(self@.base =~= old(self)@.base);
        }
    }

    /// The base paths, in order.
    pub fn base_paths(&self) -> (r: &Vec<Vec<u8>>)
        ensures
            seq_views(r@) == self@.base,
    {
        &self.base_paths
    }

    /// The directories a quoted include falls back to: the quoted paths
    /// followed by the base paths, in order.
    pub fn quoted_paths(&self) -> (r: Vec<Vec<u8>>)
        ensures
            seq_views(r@) == self@.quoted + self@.base,
    {
        let ghost qv: Seq<Seq<u8>> = seq_views(self.quoted_paths@);
        let ghost bv: Seq<Seq<u8>> = seq_views(self.base_paths@);
        let mut out: Vec<Vec<u8>> = Vec::new();
        let mut i: usize = 0;
        proof {
            assert(seq_views(out@) =~= qv.subrange(0, 0));
        }
        while i < self.quoted_paths.len()
            invariant
                0 <= i <= self.quoted_paths@.len(),
                qv == seq_views(self.quoted_paths@),
                seq_views(out@) =~= qv.subrange(0, i as int),
            decreases self.quoted_paths@.len() - i,
        {
            let ghost out0 = out@;
            let item = clone_bytes(&self.quoted_paths[i]);
            let ghost gitem = item;
            out.push(item);
            proof {
                lemma_seq_views_push(out0, gitem);
                assert(qv[i as int] == self.quoted_paths@[i as int]@);
                assert(qv.subrange(0, i + 1) =~= qv.subrange(0, i as int).push(qv[i as int]));
                assert(seq_views(out@) =~= qv.subrange(0, i + 1));
            }
            i += 1;
        }
        let mut j: usize = 0;
        proof {
            assert(qv.subrange(0, qv.len() as int) =~= qv);
            assert(seq_views(out@) =~= qv + bv.subrange(0, 0));
        }
        while j < self.base_paths.len()
            invariant
                0 <= j <= self.base_paths@.len(),
                qv == seq_views(self.quoted_paths@),
                bv == seq_views(self.base_paths@),
                seq_views(out@) =~= qv + bv.subrange(0, j as int),
            decreases self.base_paths@.len() - j,
        {
            let ghost out0 = out@;
            let item = clone_bytes(&self.base_paths[j]);
            let ghost gitem = item;
            out.push(item);
            proof {
                lemma_seq_views_push(out0, gitem);
                assert(bv[j as int] == self.base_paths@[j as int]@);
                assert(bv.subrange(0, j + 1) =~= bv.subrange(0, j as int).push(bv[j as int]));
                assert(seq_views(out@) =~= qv + bv.subrange(0, j + 1));
            }
            j += 1;
        }
        proof {
            assert(bv.subrange(0, bv.len() as int) =~= bv);
            assert(seq_views(out@) =~= self@.quoted + self@.base);
        }
        out
    }
}

/// Joining a directory and a target, POSIX style: an absolute target
/// replaces the directory, an empty directory disappears, and exactly one
/// `/` separates the parts otherwise.
pub open spec fn spec_join(dir: Seq<u8>, target: Seq<u8>) -> Seq<u8> {
    if target.len() > 0 && target[0] == 47 {
        target
    } else if dir.len() == 0 {
        target
    } else if dir[dir.len() - 1] == 47 {
        dir + target
    } else {
        dir + seq![47u8] + target
    }
}

/// Position of the last `/` in `p`, or -1 when there is none.
pub open spec fn last_slash_pos(p: Seq<u8>) -> int
    decreases p.len(),
{
    if p.len() == 0 {
        -1
    } else if p[p.len() - 1] == 47 {
        p.len() - 1
    } else {
        last_slash_pos(p.drop_last())
    }
}

/// The directory holding `p`: everything before the last `/`, the root for
/// a file directly under it, and the empty path for a bare file name.
pub open spec fn spec_parent(p: Seq<u8>) -> Seq<u8> {
    let i = last_slash_pos(p);
    if i < 0 {
        Seq::empty()
    } else if i == 0 {
        seq![47u8]
    } else {
        p.subrange(0, i)
    }
}

/// Joins a directory and a target path.
pub fn path_join(dir: &Vec<u8>, target: &Vec<u8>) -> (r: Vec<u8>)
    ensures
        r@ == spec_join(dir@, target@),
{
    if target.len() > 0 && target[0] == 47 {
        return clone_bytes(target);
    }
    if dir.len() == 0 {
        return clone_bytes(target);
    }
    let mut out = clone_bytes(dir);
    if dir[dir.len() - 1] != 47 {
        out.push(47);
    }
    let ghost stem: Seq<u8> = out@;
    let mut i: usize = 0;
    while i < target.len()
        invariant
            0 <= i <= target@.len(),
            out@ =~= stem + target@.subrange(0, i as int),
        decreases target@.len() - i,
    {
        out.push(target[i]);
        assert(out@ =~= stem + target@.subrange(0, i + 1));
        i += 1;
    }
    proof {
        assert(target@.subrange(0, target@.len() as int) =~= target@);
        assert(out@ =~= spec_join(dir@, target@));
    }
    out
}

/// The directory holding `p`.
pub fn parent_dir(p: &Vec<u8>) -> (r: Vec<u8>)
    ensures
        r@ == spec_parent(p@),
{
    let mut i: usize = p.len();
    proof {
        assert(p@.subrange(0, p@.len() as int) =~= p@);
    }
    while i > 0 && p[i - 1] != 47
        invariant
            0 <= i <= p@.len(),
            last_slash_pos(p@) == last_slash_pos(p@.subrange(0, i as int)),
        decreases i,
    {
        proof {
            assert(p@.subrange(0, i as int).drop_last() =~= p@.subrange(0, i - 1));
        }
        i -= 1;
    }
    if i == 0 {
        proof {
            assert(p@.subrange(0, 0) =~= Seq::<u8>::empty());
            assert(last_slash_pos(p@) == -1);
        }
        Vec::new()
    } else if i == 1 {
        let mut out: Vec<u8> = Vec::new();
        out.push(47);
        proof {
            assert(last_slash_pos(p@) == 0);
            assert(out@ =~= spec_parent(p@));
        }
        out
    } else {
        proof {
            assert(last_slash_pos(p@) == i - 1);
        }
        let mut out: Vec<u8> = Vec::new();
        let mut j: usize = 0;
        while j < i - 1
            invariant
                0 <= j <= i - 1 < p@.len(),
                out@ =~= p@.subrange(0, j as int),
            decreases i - j,
        {
            out.push(p[j]);
            assert(out@ =~= p@.subrange(0, j + 1));
            j += 1;
        }
        proof {
            assert(out@ =~= spec_parent(p@));
        }
        out
    }
}

/// The candidate paths of an angle include: the target joined to each base
/// path, in order.
pub open spec fn spec_angle_candidates(sp: SearchPathsView, target: Seq<u8>) -> Seq<Seq<u8>> {
    sp.base.map_values(|d: Seq<u8>| spec_join(d, target))
}

/// The candidate paths of a quoted include: the including file's directory
/// first, then the quoted paths, then the base paths, in order.
pub open spec fn spec_quote_candidates(sp: SearchPathsView, from: Seq<u8>, target: Seq<u8>) -> Seq<
    Seq<u8>,
> {
    seq![spec_join(spec_parent(from), target)] + (sp.quoted + sp.base).map_values(
        |d: Seq<u8>| spec_join(d, target),
    )
}

/// The candidate paths of an angle include, in precedence order.
pub fn angle_candidates(search_paths: &SearchPaths, target: &Vec<u8>) -> (r: Vec<Vec<u8>>)
    ensures
        seq_views(r@) == spec_angle_candidates(search_paths@, target@),
{
    let dirs = search_paths.base_paths();
    let ghost goal: Seq<Seq<u8>> = spec_angle_candidates(search_paths@, target@);
    let mut out: Vec<Vec<u8>> = Vec::new();
    let mut i: usize = 0;
    proof {
        assert(seq_views(out@) =~= goal.subrange(0, 0));
    }
    while i < dirs.len()
        invariant
            0 <= i <= dirs@.len(),
            seq_views(dirs@) == search_paths@.base,
            goal == spec_angle_candidates(search_paths@, target@),
            goal.len() == dirs@.len(),
            seq_views(out@) =~= goal.subrange(0, i as int),
        decreases dirs@.len() - i,
    {
        let ghost out0 = out@;
        let item = path_join(&dirs[i], target);
        let ghost gitem = item;
        out.push(item);
        proof {
            lemma_seq_views_push(out0, gitem);
            assert(seq_views(dirs@)[i as int] == dirs@[i as int]@);
            assert(goal[i as int] == spec_join(dirs@[i as int]@, target@));
            assert(goal.subrange(0, i + 1) =~= goal.subrange(0, i as int).push(goal[i as int]));
            assert(seq_views(out@) =~= goal.subrange(0, i + 1));
        }
        i += 1;
    }
    proof {
        assert(goal.subrange(0, goal.len() as int) =~= goal);
    }
    out
}

/// The candidate paths of a quoted include, in precedence order.
pub fn quote_candidates(search_paths: &SearchPaths, from: &Vec<u8>, target: &Vec<u8>) -> (r: Vec<
    Vec<u8>,
>)
    ensures
        seq_views(r@) == spec_quote_candidates(search_paths@, from@, target@),
{
    let ghost goal: Seq<Seq<u8>> = spec_quote_candidates(search_paths@, from@, target@);
    let mut out: Vec<Vec<u8>> = Vec::new();
    let parent = parent_dir(from);
    let head = path_join(&parent, target);
    let ghost ghead = head;
    out.push(head);
    let dirs = search_paths.quoted_paths();
    proof {
        lemma_seq_views_push(Seq::empty(), ghead);
        assert(seq_views(Seq::<Vec<u8>>::empty()) =~= Seq::<Seq<u8>>::empty());
        assert(goal.len() == 1 + dirs@.len());
        assert(seq_views(out@) =~= goal.subrange(0, 1));
    }
    let mut i: usize = 0;
    while i < dirs.len()
        invariant
            0 <= i <= dirs@.len(),
            seq_views(dirs@) == search_paths@.quoted + search_paths@.base,
            goal == spec_quote_candidates(search_paths@, from@, target@),
            goal.len() == 1 + dirs@.len(),
            seq_views(out@) =~= goal.subrange(0, i + 1),
        decreases dirs@.len() - i,
    {
        let ghost out0 = out@;
        let item = path_join(&dirs[i], target);
        let ghost gitem = item;
        out.push(item);
        proof {
            lemma_seq_views_push(out0, gitem);
            assert(seq_views(dirs@)[i as int] == dirs@[i as int]@);
            assert(goal[i + 1] == spec_join(dirs@[i as int]@, target@));
            assert(goal.subrange(0, i + 2) =~= goal.subrange(0, i + 1).push(goal[i + 1]));
            assert(seq_views(out@) =~= goal.subrange(0, i + 2));
        }
        i += 1;
    }
    proof {
        assert(goal.subrange(0, goal.len() as int) =~= goal);
    }
    out
}

} // verus!
