//! Properties that relate several operations of the store and of its files.
use vstd::prelude::*;

use crate::memory::{
    create_dir_spec, find_child, is_dir, is_file, kids, lemma_find_child, lemma_with_child_wf,
    open_mut_spec, open_spec, parent_of, read_dir_spec, resolve, wf, with_child, NodeView,
};
use crate::path::{join, SEP};
use crate::stream::{bytes_at, ensure_len, fits_after_growth, read_count, written};
use crate::FoldyError;

verus! {

/// Resolving a path in two parts is resolving the first part, then the second
/// from where the first ended.
pub proof fn lemma_resolve_append(v: Seq<NodeView>, at: int, a: Seq<Seq<u8>>, b: Seq<Seq<u8>>)
    ensures
        resolve(v, at, a + b) == match resolve(v, at, a) {
            Ok(c) => resolve(v, c, b),
            Err(e) => Err(e),
        },
    decreases a.len(),
{
    if a.len() > 0 {
        assert((a + b).drop_first() =~= a.drop_first() + b);
        assert((a + b)[0] == a[0]);
        if is_dir(v, at) {
            let k = find_child(kids(v, at), a[0]);
            if k >= 0 {
                lemma_resolve_append(v, kids(v, at)[k].1 as int, a.drop_first(), b);
            }
        }
    } else {
        assert(a + b =~= b);
    }
}

/// In a well-formed arena every step of a resolution goes to a later node.
proof fn lemma_resolve_increases(v: Seq<NodeView>, at: int, segs: Seq<Seq<u8>>)
    requires
        wf(v),
        0 <= at < v.len(),
    ensures
        resolve(v, at, segs) matches Ok(c) ==> at <= c < v.len() && (segs.len() > 0 ==> at < c),
    decreases segs.len(),
{
    if segs.len() > 0 && is_dir(v, at) {
        let k = find_child(kids(v, at), segs[0]);
        lemma_find_child(kids(v, at), segs[0]);
        if k >= 0 {
            let c = kids(v, at)[k].1 as int;
            assert(at < c < v.len());
            lemma_resolve_increases(v, c, segs.drop_first());
        }
    }
}

/// Linking a new node under `p` does not change where a path that ends at `p`
/// leads.
proof fn lemma_resolve_with_child(
    v: Seq<NodeView>,
    at: int,
    segs: Seq<Seq<u8>>,
    p: int,
    name: Seq<u8>,
    node: NodeView,
)
    requires
        wf(v),
        0 <= at < v.len(),
        is_dir(v, p),
        resolve(v, at, segs) == Ok::<int, FoldyError>(p),
    ensures
        resolve(with_child(v, p, name, node), at, segs) == Ok::<int, FoldyError>(p),
    decreases segs.len(),
{
    let w = with_child(v, p, name, node);
    if segs.len() > 0 {
        lemma_resolve_increases(v, at, segs);
        assert(at != p);
        assert(kids(w, at) == kids(v, at));
        let k = find_child(kids(v, at), segs[0]);
        lemma_find_child(kids(v, at), segs[0]);
        let c = kids(v, at)[k].1 as int;
        lemma_resolve_with_child(v, c, segs.drop_first(), p, name, node);
    }
}

/// Two children of one directory have the same absolute path only when they
/// have the same name.
proof fn lemma_join_last(parent: Seq<Seq<u8>>, a: Seq<u8>, b: Seq<u8>)
    requires
        join(parent.push(a)) == join(parent.push(b)),
    ensures
        a == b,
{
    assert(parent.push(a).drop_last() =~= parent);
    assert(parent.push(b).drop_last() =~= parent);
    let j = join(parent);
    let n = j.len() + 1;
    assert(join(parent.push(a)) == j + seq![SEP] + a);
    assert(join(parent.push(b)) == j + seq![SEP] + b);
    assert(a.len() == b.len());
    assert((j + seq![SEP] + a).subrange(n as int, (n + a.len()) as int) =~= a);
    assert((j + seq![SEP] + b).subrange(n as int, (n + b.len()) as int) =~= b);
}

/// Whether `x` occurs exactly once in `list`.
pub open spec fn listed_once(list: Seq<Seq<u8>>, x: Seq<u8>) -> bool {
    exists|i: int|
        0 <= i < list.len() && list[i] == x && forall|j: int|
            0 <= j < list.len() && list[j] == x ==> j == i
}

/// Making a directory twice: once `create_dir` has succeeded on a path, a
/// second call on it succeeds and changes nothing, and listing the parent
/// directory shows the new directory exactly once.
pub proof fn create_dir_twice(v: Seq<NodeView>, segs: Seq<Seq<u8>>)
    requires
        wf(v),
        create_dir_spec(v, segs).0 is Ok,
    ensures
        wf(create_dir_spec(v, segs).1),
        create_dir_spec(create_dir_spec(v, segs).1, segs) == (
            Ok::<(), FoldyError>(()),
            create_dir_spec(v, segs).1,
        ),
        read_dir_spec(create_dir_spec(v, segs).1, segs.drop_last()) is Ok,
        listed_once(read_dir_spec(create_dir_spec(v, segs).1, segs.drop_last())->Ok_0, join(segs)),
{
    let p = parent_of(v, segs)->Ok_0;
    let name = segs.last();
    let parent = segs.drop_last();
    assert(parent.push(name) =~= segs);
    lemma_find_child(kids(v, p), name);
    let w = create_dir_spec(v, segs).1;
    if find_child(kids(v, p), name) < 0 {
        let n = v.len() as int;
        lemma_with_child_wf(v, p, name, NodeView::Dir(Seq::empty()));
        lemma_resolve_with_child(v, 0, parent, p, name, NodeView::Dir(Seq::empty()));
        assert(kids(w, p) == kids(v, p).push((name, n as nat)));
        assert(kids(w, p).drop_last() =~= kids(v, p));
        assert(find_child(kids(w, p), name) == kids(v, p).len());
        assert(is_dir(w, n));
    }
    lemma_find_child(kids(w, p), name);
    let k = find_child(kids(w, p), name);
    assert(parent_of(w, segs) == Ok::<int, FoldyError>(p));
    let list = kids(w, p).map_values(|e: (Seq<u8>, nat)| join(parent.push(e.0)));
    assert(read_dir_spec(w, parent) == Ok::<Seq<Seq<u8>>, FoldyError>(list));
    assert(list[k] == join(segs));
    assert(wf(w));
    assert(create_dir_spec(w, segs) == (Ok::<(), FoldyError>(()), w));
    assert forall|j: int| 0 <= j < list.len() && list[j] == join(segs) implies j == k by {
        lemma_join_last(parent, kids(w, p)[j].0, name);
        if j != k {
            assert(kids(w, p)[j].0 != kids(w, p)[k].0);
        }
    }
    assert(0 <= k < list.len() && list[k] == join(segs));
    assert(listed_once(list, join(segs)));
}

/// Writing bytes at the start of a file, seeking back to the start and
/// reading as many bytes gives the same bytes back.
pub proof fn write_seek_read(data: Seq<u8>, b: Seq<u8>)
    requires
        fits_after_growth(data.len(), b.len()),
    ensures
        ({
            let d = written(data, 0, b);
            &&& fits_after_growth(d.len(), 0)
            &&& ensure_len(d, 0) == d
            &&& read_count(d.len(), 0, b.len()) == b.len()
            &&& bytes_at(d, 0, b.len()) == b
        }),
{
    let d = written(data, 0, b);
    let g = ensure_len(data, b.len());
    assert(g.len() >= b.len());
    assert(d.len() == g.len());
    if b.len() > 0 {
        assert(d.subrange(0, b.len() as int) =~= b);
    }
}

/// Seeking past the end grows the data, keeps the old bytes, zero-fills the
/// rest, and holds at least the target position; when the target is at least
/// twice the old length the data ends exactly there.
pub proof fn seek_past_end(data: Seq<u8>, pos: nat)
    requires
        pos > data.len(),
    ensures
        ({
            let d = ensure_len(data, pos);
            &&& d.len() >= pos
            &&& d.subrange(0, data.len() as int) == data
            &&& forall|i: int| data.len() <= i < d.len() ==> d[i] == 0
            &&& pos >= 2 * data.len() ==> d.len() == pos
        }),
{
    let d = ensure_len(data, pos);
    assert(d.subrange(0, data.len() as int) =~= data);
}

/// A read at or past the end copies nothing, and no read moves the cursor
/// past the end of the data.
pub proof fn read_at_end(len: nat, cursor: nat, want: nat)
    ensures
        cursor >= len ==> read_count(len, cursor, want) == 0,
        cursor <= len ==> cursor + read_count(len, cursor, want) <= len,
{
}

/// Opening a path whose parent does not exist fails with a missing directory,
/// for reading and for writing.
pub proof fn open_without_parent(v: Seq<NodeView>, segs: Seq<Seq<u8>>)
    requires
        wf(v),
        segs.len() > 0,
        resolve(v, 0, segs.drop_last()) == Err::<int, FoldyError>(FoldyError::DirectoryNotFound),
    ensures
        open_spec(v, segs) == Err::<int, FoldyError>(FoldyError::DirectoryNotFound),
        open_mut_spec(v, segs) == Err::<(int, Seq<NodeView>), FoldyError>(
            FoldyError::DirectoryNotFound,
        ),
{
    assert(segs.drop_last() + seq![segs.last()] =~= segs);
    lemma_resolve_append(v, 0, segs.drop_last(), seq![segs.last()]);
}

/// Opening a path on which a segment before the last names a file fails with
/// an invalid path, for reading and for writing.
pub proof fn open_through_file(v: Seq<NodeView>, segs: Seq<Seq<u8>>, i: int)
    requires
        wf(v),
        0 < i < segs.len(),
        resolve(v, 0, segs.subrange(0, i)) matches Ok(c) && is_file(v, c),
    ensures
        open_spec(v, segs) == Err::<int, FoldyError>(FoldyError::InvalidPath),
        open_mut_spec(v, segs) == Err::<(int, Seq<NodeView>), FoldyError>(
            FoldyError::InvalidPath,
        ),
{
    let c = resolve(v, 0, segs.subrange(0, i))->Ok_0;
    let a = segs.subrange(0, i);
    let b = segs.subrange(i, segs.len() as int);
    assert(a + b =~= segs);
    lemma_resolve_append(v, 0, a, b);
    let parent = segs.drop_last();
    let b2 = segs.subrange(i, segs.len() - 1);
    assert(a + b2 =~= parent);
    lemma_resolve_append(v, 0, a, b2);
}

} // verus!
