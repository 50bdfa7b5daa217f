//! Paths as byte strings: splitting into segments and joining them back.
use vstd::prelude::*;

verus! {

/// The byte that separates path segments.
pub const SEP: u8 = 0x2f;

/// Length of the segment at the front of `p`: the bytes before the first
/// separator.
pub open spec fn name_len(p: Seq<u8>) -> nat
    decreases p.len(),
{
    if p.len() == 0 || p[0] == SEP {
        0
    } else {
        1 + name_len(p.drop_first())
    }
}

/// The segments of a path: the maximal runs of bytes without a separator, in
/// order. A leading separator, repeated separators and a trailing separator
/// add no segment, so "/a//b/" and "a/b" have the same segments.
pub open spec fn segments(p: Seq<u8>) -> Seq<Seq<u8>>
    decreases p.len(),
{
    if p.len() == 0 {
        seq![]
    } else if p[0] == SEP {
        segments(p.drop_first())
    } else {
        let n = name_len(p);
        proof {
            lemma_name_len_bound(p);
        }
        seq![p.subrange(0, n as int)] + segments(p.subrange(n as int, p.len() as int))
    }
}

/// The absolute path that names the given segments: each one preceded by a
/// separator.
pub open spec fn join(segs: Seq<Seq<u8>>) -> Seq<u8>
    decreases segs.len(),
{
    if segs.len() == 0 {
        seq![]
    } else {
        join(segs.drop_last()) + seq![SEP] + segs.last()
    }
}

/// A segment is never longer than the path it starts.
pub proof fn lemma_name_len_bound(p: Seq<u8>)
    ensures
        name_len(p) <= p.len(),
    decreases p.len(),
{
    if p.len() > 0 && p[0] != SEP {
        lemma_name_len_bound(p.drop_first());
    }
}

proof fn lemma_name_len_step(p: Seq<u8>, i: int)
    requires
        0 <= i < p.len(),
        p[i] != SEP,
    ensures
        name_len(p.subrange(i, p.len() as int)) == 1 + name_len(p.subrange(i + 1, p.len() as int)),
{
    assert(p.subrange(i, p.len() as int).drop_first() =~= p.subrange(i + 1, p.len() as int));
}

/// The byte strings held by a vector of byte vectors.
pub open spec fn views(v: Seq<Vec<u8>>) -> Seq<Seq<u8>> {
    Seq::new(v.len(), |i: int| v[i]@)
}

/// Splits a path into its segments.
pub fn split_path(p: &[u8]) -> (r: Vec<Vec<u8>>)
    ensures
        views(r@) == segments(p@),
{
    let mut out: Vec<Vec<u8>> = Vec::new();
    let mut i: usize = 0;
    let ghost len = p@.len() as int;
    assert(p@.subrange(0, len) =~= p@);
    assert(views(out@) + segments(p@) =~= segments(p@));
    while i < p.len()
        invariant
            0 <= i <= p@.len(),
            len == p@.len(),
            segments(p@) == views(out@) + segments(p@.subrange(i as int, len)),
        decreases p@.len() - i,
    {
        if p[i] == SEP {
            assert(p@.subrange(i as int, len).drop_first() =~= p@.subrange(i + 1, len));
            i = i + 1;
        } else {
            let start = i;
            while i < p.len() && p[i] != SEP
                invariant
                    start <= i <= p@.len(),
                    len == p@.len(),
                    name_len(p@.subrange(start as int, len)) == (i - start) + name_len(
                        p@.subrange(i as int, len),
                    ),
                decreases p@.len() - i,
            {
                proof {
                    lemma_name_len_step(p@, i as int);
                }
                i = i + 1;
            }
            let ghost rest = p@.subrange(start as int, len);
            assert(name_len(p@.subrange(i as int, len)) == 0);
            assert(name_len(rest) == i - start);
            assert(rest.subrange(0, (i - start) as int) =~= p@.subrange(start as int, i as int));
            assert(rest.subrange((i - start) as int, rest.len() as int) =~= p@.subrange(
                i as int,
                len,
            ));
            let seg = vstd::slice::slice_to_vec(vstd::slice::slice_subrange(p, start, i));
            let ghost before = views(out@);
            out.push(seg);
            assert(views(out@) =~= before.push(p@.subrange(start as int, i as int)));
            assert(p@[start as int] != SEP);
            assert(segments(p@) == views(out@) + segments(p@.subrange(i as int, len))) by {
                assert(before + (seq![p@.subrange(start as int, i as int)] + segments(
                    p@.subrange(i as int, len),
                )) =~= views(out@) + segments(p@.subrange(i as int, len)));
            }
        }
    }
    assert(p@.subrange(i as int, len) =~= Seq::<u8>::empty());
    assert(views(out@) + Seq::<Seq<u8>>::empty() =~= views(out@));
    out
}

/// Builds the absolute path of the given segments.
pub fn join_path(segs: &Vec<Vec<u8>>) -> (r: Vec<u8>)
    ensures
        r@ == join(views(segs@)),
{
    let mut out: Vec<u8> = Vec::new();
    let mut i: usize = 0;
    while i < segs.len()
        invariant
            0 <= i <= segs@.len(),
            out@ == join(views(segs@).subrange(0, i as int)),
        decreases segs@.len() - i,
    {
        let ghost before = out@;
        out.push(SEP);
        let seg = &segs[i];
        let mut j: usize = 0;
        while j < seg.len()
            invariant
                0 <= j <= seg@.len(),
                out@ == before + seq![SEP] + seg@.subrange(0, j as int),
            decreases seg@.len() - j,
        {
            out.push(seg[j]);
            assert(seg@.subrange(0, j + 1) =~= seg@.subrange(0, j as int).push(seg@[j as int]));
            j = j + 1;
        }
        assert(seg@.subrange(0, j as int) =~= seg@);
        assert(views(segs@).subrange(0, i + 1).drop_last() =~= views(segs@).subrange(
            0,
            i as int,
        ));
        i = i + 1;
    }
    assert(views(segs@).subrange(0, i as int) =~= views(segs@));
    out
}

} // verus!
