use vstd::prelude::*;

verus! {

/// The byte sequences a list of byte vectors holds, in order.
pub open spec fn seq_views(s: Seq<Vec<u8>>) -> Seq<Seq<u8>> {
    s.map_values(|v: Vec<u8>| v@)
}

/// The pairs of byte sequences a list of byte-vector pairs holds, in order.
pub open spec fn pair_views(s: Seq<(Vec<u8>, Vec<u8>)>) -> Seq<(Seq<u8>, Seq<u8>)> {
    s.map_values(|p: (Vec<u8>, Vec<u8>)| (p.0@, p.1@))
}

pub proof fn lemma_seq_views_push(s: Seq<Vec<u8>>, v: Vec<u8>)
    ensures
        seq_views(s.push(v)) == seq_views(s).push(v@),
{
    assert forall|k: int| 0 <= k < s.len() + 1 implies seq_views(s.push(v))[k] == seq_views(
        s,
    ).push(v@)[k] by {
        assert(seq_views(s.push(v))[k] == s.push(v)[k]@);
        if k < s.len() {
            assert(seq_views(s)[k] == s[k]@);
        }
    }
    assert(seq_views(s.push(v)) =~= seq_views(s).push(v@));
}

pub proof fn lemma_pair_views_push(s: Seq<(Vec<u8>, Vec<u8>)>, v: (Vec<u8>, Vec<u8>))
    ensures
        pair_views(s.push(v)) == pair_views(s).push((v.0@, v.1@)),
{
    assert forall|k: int| 0 <= k < s.len() + 1 implies pair_views(s.push(v))[k] == pair_views(
        s,
    ).push((v.0@, v.1@))[k] by {
        assert(pair_views(s.push(v))[k] == (s.push(v)[k].0@, s.push(v)[k].1@));
        if k < s.len() {
            assert(pair_views(s)[k] == (s[k].0@, s[k].1@));
        }
    }
    assert(pair_views(s.push(v)) =~= pair_views(s).push((v.0@, v.1@)));
}

/// Byte-for-byte equality of two byte vectors.
pub fn bytes_eq(a: &Vec<u8>, b: &Vec<u8>) -> (r: bool)
    ensures
        r == (a@ == b@),
{
    if a.len() != b.len() {
        return false;
    }
    let mut i: usize = 0;
    while i < a.len()
        invariant
            0 <= i <= a@.len(),
            a@.len() == b@.len(),
            forall|j: int| 0 <= j < i ==> a@[j] == b@[j],
        decreases a@.len() - i,
    {
        if a[i] != b[i] {
            return false;
        }
        i += 1;
    }
    proof {
        assert(a@ =~= b@);
    }
    true
}

/// An owned copy of a byte vector.
pub fn clone_bytes(v: &Vec<u8>) -> (r: Vec<u8>)
    ensures
        r@ == v@,
{
    let mut out: Vec<u8> = Vec::new();
    let mut i: usize = 0;
    while i < v.len()
        invariant
            0 <= i <= v@.len(),
            out@ =~= v@.subrange(0, i as int),
        decreases v@.len() - i,
    {
        out.push(v[i]);
        assert(out@ =~= v@.subrange(0, i + 1));
        i += 1;
    }
    proof {
        assert(out@ =~= v@);
    }
    out
}

} // verus!

verus! {

/// Whether a list of byte vectors holds `key`.
pub fn contains_bytes(v: &Vec<Vec<u8>>, key: &Vec<u8>) -> (r: bool)
    ensures
        r == seq_views(v@).contains(key@),
{
    let mut i: usize = 0;
    proof {
        assert(seq_views(v@).len() == v@.len());
    }
    while i < v.len()
        invariant
            0 <= i <= v@.len(),
            seq_views(v@).len() == v@.len(),
            forall|j: int| 0 <= j < i ==> seq_views(v@)[j] != key@,
        decreases v@.len() - i,
    {
        proof {
            assert(seq_views(v@)[i as int] == v@[i as int]@);
        }
        if bytes_eq(&v[i], key) {
            proof {
                assert(seq_views(v@)[i as int] == key@);
            }
            return true;
        }
        i += 1;
    }
    proof {
        if seq_views(v@).contains(key@) {
            let j = choose|j: int| 0 <= j < seq_views(v@).len() && seq_views(v@)[j] == key@;
        }
    }
    false
}

} // verus!
