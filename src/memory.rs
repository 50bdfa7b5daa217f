//! The in-memory store: a tree of directories and files kept in an arena of
//! nodes, addressed by slash-separated paths.
use vstd::prelude::*;
use vstd::string::StringSliceAdditionalSpecFns;

pub use crate::stream::{FileState, MemoryFile, SeekFrom};

use crate::path::{join, segments, split_path, views, SEP};
use crate::{DirEntry, FoldyError, Source};

verus! {

/// A node of the store as the contracts see it: a file, or a directory that
/// lists its children by name and node index, in the order they were added.
pub enum NodeView {
    File(FileState),
    Dir(Seq<(Seq<u8>, nat)>),
}

/// A node of the store's arena: a file, or a directory whose children are
/// named indices into the same arena.
#[derive(Clone, Debug)]
pub enum MemoryEntry {
    File(MemoryFile),
    Directory(Vec<(Vec<u8>, usize)>),
}

impl View for MemoryEntry {
    type V = NodeView;

    open spec fn view(&self) -> NodeView {
        match self {
            MemoryEntry::File(f) => NodeView::File(f@),
            MemoryEntry::Directory(ch) => NodeView::Dir(
                ch@.map_values(|c: (Vec<u8>, usize)| (c.0@, c.1 as nat)),
            ),
        }
    }
}

/// The children of node `p`; none for a file.
pub open spec fn kids(v: Seq<NodeView>, p: int) -> Seq<(Seq<u8>, nat)> {
    match v[p] {
        NodeView::Dir(c) => c,
        NodeView::File(_) => Seq::empty(),
    }
}

/// Whether node `p` exists and is a directory.
pub open spec fn is_dir(v: Seq<NodeView>, p: int) -> bool {
    0 <= p < v.len() && v[p] is Dir
}

/// Whether node `p` exists and is a file.
pub open spec fn is_file(v: Seq<NodeView>, p: int) -> bool {
    0 <= p < v.len() && v[p] is File
}

/// The position of the child called `name` in `c`, or -1.
pub open spec fn find_child(c: Seq<(Seq<u8>, nat)>, name: Seq<u8>) -> int
    decreases c.len(),
{
    if c.len() == 0 {
        -1
    } else if c.last().0 == name {
        c.len() - 1
    } else {
        find_child(c.drop_last(), name)
    }
}

/// The node that `segs` leads to from node `at`, one segment per step. Every
/// node passed on the way must be a directory, else the path is invalid; a
/// missing child is a missing directory.
pub open spec fn resolve(v: Seq<NodeView>, at: int, segs: Seq<Seq<u8>>) -> Result<int, FoldyError>
    decreases segs.len(),
{
    if segs.len() == 0 {
        Ok(at)
    } else if !is_dir(v, at) {
        Err(FoldyError::InvalidPath)
    } else {
        let k = find_child(kids(v, at), segs[0]);
        if k < 0 {
            Err(FoldyError::DirectoryNotFound)
        } else {
            resolve(v, kids(v, at)[k].1 as int, segs.drop_first())
        }
    }
}

/// The well-formed arenas: node 0 is the root directory; every child index
/// points to a later node; names are distinct within a directory; and no
/// node is the child of two places.
pub open spec fn wf(v: Seq<NodeView>) -> bool {
    &&& v.len() >= 1
    &&& v[0] is Dir
    &&& forall|p: int, k: int|
        0 <= p < v.len() && 0 <= k < kids(v, p).len() ==> p < #[trigger] kids(v, p)[k].1 < v.len()
    &&& forall|p: int, ka: int, kb: int|
        0 <= p < v.len() && 0 <= ka < kids(v, p).len() && 0 <= kb < kids(v, p).len() && ka
            != kb ==> #[trigger] kids(v, p)[ka].0 != #[trigger] kids(v, p)[kb].0
    &&& forall|pa: int, ka: int, pb: int, kb: int|
        0 <= pa < v.len() && 0 <= ka < kids(v, pa).len() && 0 <= pb < v.len() && 0 <= kb < kids(
            v,
            pb,
        ).len() && #[trigger] kids(v, pa)[ka].1 == #[trigger] kids(v, pb)[kb].1 ==> pa == pb
            && ka == kb
}

/// The segments of a path given as a string.
pub open spec fn path_segments(path: &str) -> Seq<Seq<u8>> {
    segments(path.spec_bytes())
}

/// The directory that would hold the last segment of `segs`: the path must
/// have a segment, and what comes before it must lead to a directory.
pub open spec fn parent_of(v: Seq<NodeView>, segs: Seq<Seq<u8>>) -> Result<int, FoldyError> {
    if segs.len() == 0 {
        Err(FoldyError::InvalidPath)
    } else {
        match resolve(v, 0, segs.drop_last()) {
            Err(e) => Err(e),
            Ok(p) => if is_dir(v, p) {
                Ok(p)
            } else {
                Err(FoldyError::InvalidPath)
            },
        }
    }
}

/// `v` with a new node appended and linked under directory `p` by `name`.
pub open spec fn with_child(v: Seq<NodeView>, p: int, name: Seq<u8>, node: NodeView) -> Seq<
    NodeView,
> {
    v.update(p, NodeView::Dir(kids(v, p).push((name, v.len())))).push(node)
}

/// The outcome of making the directory `segs`, and the arena after it. An
/// existing directory there is kept; an existing file is an invalid path.
pub open spec fn create_dir_spec(v: Seq<NodeView>, segs: Seq<Seq<u8>>) -> (
    Result<(), FoldyError>,
    Seq<NodeView>,
) {
    match parent_of(v, segs) {
        Err(e) => (Err(e), v),
        Ok(p) => {
            let k = find_child(kids(v, p), segs.last());
            if k < 0 {
                (Ok(()), with_child(v, p, segs.last(), NodeView::Dir(Seq::empty())))
            } else if is_dir(v, kids(v, p)[k].1 as int) {
                (Ok(()), v)
            } else {
                (Err(FoldyError::InvalidPath), v)
            }
        },
    }
}

/// Where opening `segs` for writing finds its file, and the arena in which it
/// does: a missing file is first created empty under its parent.
pub open spec fn open_mut_spec(v: Seq<NodeView>, segs: Seq<Seq<u8>>) -> Result<
    (int, Seq<NodeView>),
    FoldyError,
> {
    match parent_of(v, segs) {
        Err(e) => Err(e),
        Ok(p) => {
            let k = find_child(kids(v, p), segs.last());
            if k < 0 {
                Ok(
                    (
                        v.len() as int,
                        with_child(
                            v,
                            p,
                            segs.last(),
                            NodeView::File(FileState { data: Seq::empty(), cursor: 0 }),
                        ),
                    ),
                )
            } else if is_file(v, kids(v, p)[k].1 as int) {
                Ok((kids(v, p)[k].1 as int, v))
            } else {
                Err(FoldyError::InvalidPath)
            }
        },
    }
}

/// Which node opening `segs` for reading finds: it must be a file.
pub open spec fn open_spec(v: Seq<NodeView>, segs: Seq<Seq<u8>>) -> Result<int, FoldyError> {
    match resolve(v, 0, segs) {
        Err(e) => Err(e),
        Ok(c) => if is_file(v, c) {
            Ok(c)
        } else {
            Err(FoldyError::FileNotFound)
        },
    }
}

/// The outcome of removing the directory `segs`, and the arena after it. Only
/// an empty directory is removed; a file or a non-empty directory there is an
/// invalid path, and nothing there is a missing directory.
pub open spec fn remove_dir_spec(v: Seq<NodeView>, segs: Seq<Seq<u8>>) -> (
    Result<(), FoldyError>,
    Seq<NodeView>,
) {
    match parent_of(v, segs) {
        Err(e) => (Err(e), v),
        Ok(p) => {
            let k = find_child(kids(v, p), segs.last());
            if k < 0 {
                (Err(FoldyError::DirectoryNotFound), v)
            } else if is_dir(v, kids(v, p)[k].1 as int) && kids(v, kids(v, p)[k].1 as int).len()
                == 0 {
                (Ok(()), v.update(p, NodeView::Dir(kids(v, p).remove(k))))
            } else {
                (Err(FoldyError::InvalidPath), v)
            }
        },
    }
}

/// The absolute paths of the children of the directory `segs`, in order.
pub open spec fn read_dir_spec(v: Seq<NodeView>, segs: Seq<Seq<u8>>) -> Result<
    Seq<Seq<u8>>,
    FoldyError,
> {
    match resolve(v, 0, segs) {
        Err(e) => Err(e),
        Ok(c) => if is_dir(v, c) {
            Ok(kids(v, c).map_values(|e: (Seq<u8>, nat)| join(segs.push(e.0))))
        } else {
            Err(FoldyError::InvalidPath)
        },
    }
}

/// Whether two byte vectors hold the same bytes.
fn same_bytes(a: &Vec<u8>, b: &Vec<u8>) -> (r: bool)
    ensures
        r == (a@ == b@),
{
    if a.len() != b.len() {
        return false;
    }
    let mut i: usize = 0;
    while i < a.len()
        invariant
            0 <= i <= a@.len(),
            a@.len() == b@.len(),
            a@.subrange(0, i as int) == b@.subrange(0, i as int),
        decreases a@.len() - i,
    {
        if a[i] != b[i] {
            assert(a@[i as int] != b@[i as int]);
            return false;
        }
        assert(a@.subrange(0, i + 1) =~= a@.subrange(0, i as int).push(a@[i as int]));
        assert(b@.subrange(0, i + 1) =~= b@.subrange(0, i as int).push(b@[i as int]));
        i = i + 1;
    }
    assert(a@ =~= a@.subrange(0, i as int));
    assert(b@ =~= b@.subrange(0, i as int));
    true
}

/// The position of the child called `name`, searching from the back.
fn find_child_exec(ch: &Vec<(Vec<u8>, usize)>, name: &Vec<u8>) -> (r: Option<usize>)
    ensures
        ({
            let c = ch@.map_values(|c: (Vec<u8>, usize)| (c.0@, c.1 as nat));
            match r {
                Some(k) => find_child(c, name@) == k && k < ch@.len(),
                None => find_child(c, name@) < 0,
            }
        }),
{
    let ghost c = ch@.map_values(|c: (Vec<u8>, usize)| (c.0@, c.1 as nat));
    let mut i: usize = ch.len();
    assert(c.subrange(0, i as int) =~= c);
    while i > 0
        invariant
            i <= ch@.len(),
            c == ch@.map_values(|c: (Vec<u8>, usize)| (c.0@, c.1 as nat)),
            find_child(c, name@) == find_child(c.subrange(0, i as int), name@),
        decreases i,
    {
        let ghost pre = c.subrange(0, i as int);
        assert(pre.drop_last() =~= c.subrange(0, i - 1));
        if same_bytes(&ch[i - 1].0, name) {
            return Some(i - 1);
        }
        i = i - 1;
    }
    None
}

/// `base`, a separator, then `name`.
fn child_path(base: &Vec<u8>, name: &Vec<u8>) -> (r: Vec<u8>)
    ensures
        r@ == base@ + seq![SEP] + name@,
{
    let mut out: Vec<u8> = Vec::new();
    let mut i: usize = 0;
    while i < base.len()
        invariant
            i <= base@.len(),
            out@ == base@.subrange(0, i as int),
        decreases base@.len() - i,
    {
        out.push(base[i]);
        assert(base@.subrange(0, i + 1) =~= base@.subrange(0, i as int).push(base@[i as int]));
        i = i + 1;
    }
    assert(base@.subrange(0, i as int) =~= base@);
    out.push(SEP);
    let mut j: usize = 0;
    while j < name.len()
        invariant
            j <= name@.len(),
            out@ == base@ + seq![SEP] + name@.subrange(0, j as int),
        decreases name@.len() - j,
    {
        out.push(name[j]);
        assert(name@.subrange(0, j + 1) =~= name@.subrange(0, j as int).push(name@[j as int]));
        j = j + 1;
    }
    assert(name@.subrange(0, j as int) =~= name@);
    out
}

/// The entries of one directory, taken when it was listed, handed out in
/// order. They are kept last first, so that the next one is at the back.
pub struct MemoryDirIter {
    pending: Vec<DirEntry>,
}

impl View for MemoryDirIter {
    type V = Seq<Seq<u8>>;

    /// The paths still to come, in order.
    closed spec fn view(&self) -> Seq<Seq<u8>> {
        Seq::new(self.pending@.len(), |i: int| self.pending@[self.pending@.len() - 1 - i].path@)
    }
}

impl MemoryDirIter {
    /// How many entries are still to come.
    pub fn len(&self) -> (r: usize)
        ensures
            r == self@.len(),
    {
        self.pending.len()
    }

    /// The next entry, or `None` once all have been handed out.
    pub fn next(&mut self) -> (r: Option<Result<DirEntry, FoldyError>>)
        ensures
            old(self)@.len() == 0 ==> r is None && final(self)@ == old(self)@,
            old(self)@.len() > 0 ==> (r matches Some(Ok(e)) && e.path@ == old(self)@[0]
                && final(self)@ == old(self)@.drop_first()),
    {
        match self.pending.pop() {
            Some(e) => {
                assert(self@ =~= old(self)@.drop_first());
                Some(Ok(e))
            },
            None => None,
        }
    }
}

/// Where `find_child` lands: on a child with that name, or nowhere when no
/// child has it.
pub proof fn lemma_find_child(c: Seq<(Seq<u8>, nat)>, name: Seq<u8>)
    ensures
        find_child(c, name) < c.len(),
        find_child(c, name) >= 0 ==> c[find_child(c, name)].0 == name,
        find_child(c, name) < 0 <==> forall|k: int| 0 <= k < c.len() ==> c[k].0 != name,
    decreases c.len(),
{
    if c.len() > 0 && c.last().0 != name {
        lemma_find_child(c.drop_last(), name);
        assert forall|k: int| 0 <= k < c.len() - 1 implies c[k] == c.drop_last()[k] by {}
    }
}

/// Linking a new node with a fresh name under a directory keeps the arena
/// well formed.
pub(crate) proof fn lemma_with_child_wf(v: Seq<NodeView>, p: int, name: Seq<u8>, node: NodeView)
    requires
        wf(v),
        is_dir(v, p),
        find_child(kids(v, p), name) < 0,
        node matches NodeView::Dir(c) ==> c.len() == 0,
    ensures
        wf(with_child(v, p, name, node)),
{
    let w = with_child(v, p, name, node);
    let n = v.len() as int;
    lemma_find_child(kids(v, p), name);
    assert forall|q: int| 0 <= q < w.len() implies #[trigger] kids(w, q) == if q == p {
        kids(v, p).push((name, n as nat))
    } else if q < n {
        kids(v, q)
    } else {
        Seq::<(Seq<u8>, nat)>::empty()
    } by {}
    assert forall|pa: int, ka: int, pb: int, kb: int|
        0 <= pa < w.len() && 0 <= ka < kids(w, pa).len() && 0 <= pb < w.len() && 0 <= kb < kids(
            w,
            pb,
        ).len() && #[trigger] kids(w, pa)[ka].1 == #[trigger] kids(w, pb)[kb].1 implies pa == pb
        && ka == kb by {
        if pa == p && ka == kids(v, p).len() {
            if !(pb == p && kb == kids(v, p).len()) {
                assert(kids(w, pb)[kb] == kids(v, pb)[kb]);
            }
        } else if pb == p && kb == kids(v, p).len() {
            assert(kids(w, pa)[ka] == kids(v, pa)[ka]);
        } else {
            assert(kids(w, pa)[ka] == kids(v, pa)[ka]);
            assert(kids(w, pb)[kb] == kids(v, pb)[kb]);
        }
    }
    assert forall|q: int, ka: int, kb: int|
        0 <= q < w.len() && 0 <= ka < kids(w, q).len() && 0 <= kb < kids(w, q).len() && ka
            != kb implies #[trigger] kids(w, q)[ka].0 != #[trigger] kids(w, q)[kb].0 by {
        if q == p {
            if ka < kids(v, p).len() && kb < kids(v, p).len() {
                assert(kids(w, q)[ka] == kids(v, q)[ka]);
                assert(kids(w, q)[kb] == kids(v, q)[kb]);
            } else if ka < kids(v, p).len() {
                assert(kids(w, q)[ka] == kids(v, q)[ka]);
            } else {
                assert(kids(w, q)[kb] == kids(v, q)[kb]);
            }
        }
    }
    assert forall|q: int, k: int|
        0 <= q < w.len() && 0 <= k < kids(w, q).len() implies q < #[trigger] kids(w, q)[k].1
        < w.len() by {
        if q == p && k < kids(v, p).len() {
            assert(kids(w, q)[k] == kids(v, q)[k]);
        }
    }
}

/// Replacing what a file node holds keeps the arena well formed.
proof fn lemma_file_update_wf(v: Seq<NodeView>, k: int)
    requires
        wf(v),
        is_file(v, k),
    ensures
        forall|s: FileState| #[trigger] wf(v.update(k, NodeView::File(s))),
{
    assert forall|s: FileState| #[trigger] wf(v.update(k, NodeView::File(s))) by {
        let w = v.update(k, NodeView::File(s));
        assert forall|q: int| 0 <= q < w.len() implies #[trigger] kids(w, q) == kids(v, q) by {}
    }
}

/// Dropping a child from a directory keeps the arena well formed.
proof fn lemma_remove_child_wf(v: Seq<NodeView>, p: int, k: int)
    requires
        wf(v),
        is_dir(v, p),
        0 <= k < kids(v, p).len(),
    ensures
        wf(v.update(p, NodeView::Dir(kids(v, p).remove(k)))),
{
    let w = v.update(p, NodeView::Dir(kids(v, p).remove(k)));
    let old_index = |q: int, j: int| if q == p && j >= k { j + 1 } else { j };
    assert forall|q: int, j: int| 0 <= q < w.len() && 0 <= j < kids(w, q).len() implies #[trigger] kids(w, q)[j]
        == kids(v, q)[old_index(q, j)] && 0 <= old_index(q, j) < kids(v, q).len() by {}
}

/// The views of a sequence of entries.
pub open spec fn nodes_view(nodes: Seq<MemoryEntry>) -> Seq<NodeView> {
    nodes.map_values(|e: MemoryEntry| e@)
}

/// Replacing one entry replaces its view.
proof fn lemma_nodes_view_update(nodes: Seq<MemoryEntry>, c: int)
    requires
        0 <= c < nodes.len(),
    ensures
        forall|e: MemoryEntry| #[trigger] nodes_view(nodes.update(c, e)) == nodes_view(nodes).update(c, e@),
{
    assert forall|e: MemoryEntry| #[trigger] nodes_view(nodes.update(c, e)) == nodes_view(nodes).update(c, e@) by {
        assert(nodes_view(nodes.update(c, e)) =~= nodes_view(nodes).update(c, e@));
    }
}

/// The store: an arena of nodes whose node 0 is the root directory.
#[derive(Clone, Debug)]
pub struct MemorySource {
    nodes: Vec<MemoryEntry>,
}

impl View for MemorySource {
    type V = Seq<NodeView>;

    closed spec fn view(&self) -> Seq<NodeView> {
        nodes_view(self.nodes@)
    }
}

impl Default for MemorySource {
    /// An empty store: a root directory with no children.
    fn default() -> (r: Self)
        ensures
            r@ == seq![NodeView::Dir(Seq::empty())],
            wf(r@),
    {
        let children: Vec<(Vec<u8>, usize)> = Vec::new();
        assert(children@.map_values(|c: (Vec<u8>, usize)| (c.0@, c.1 as nat)) =~= Seq::empty());
        let mut nodes: Vec<MemoryEntry> = Vec::new();
        nodes.push(MemoryEntry::Directory(children));
        let r = MemorySource { nodes };
        assert(r@ =~= seq![NodeView::Dir(Seq::empty())]);
        assert(kids(r@, 0) =~= Seq::<(Seq<u8>, nat)>::empty());
        r
    }
}

impl MemorySource {
    /// Follows the first `count` segments from the root.
    fn locate(&self, segs: &Vec<Vec<u8>>, count: usize) -> (r: Result<usize, FoldyError>)
        requires
            wf(self@),
            count <= segs@.len(),
        ensures
            match r {
                Ok(c) => resolve(self@, 0, views(segs@).subrange(0, count as int)) == Ok::<
                    int,
                    FoldyError,
                >(c as int) && c < self@.len(),
                Err(e) => resolve(self@, 0, views(segs@).subrange(0, count as int)) == Err::<
                    int,
                    FoldyError,
                >(e),
            },
    {
        let ghost v = self@;
        let ghost all = views(segs@).subrange(0, count as int);
        let mut cur: usize = 0;
        let mut i: usize = 0;
        assert(all.subrange(0, count as int) =~= all);
        while i < count
            invariant
                v == self@,
                wf(v),
                count <= segs@.len(),
                i <= count,
                cur < v.len(),
                all == views(segs@).subrange(0, count as int),
                resolve(v, 0, all) == resolve(v, cur as int, all.subrange(i as int, count as int)),
            decreases count - i,
        {
            let ghost rest = all.subrange(i as int, count as int);
            assert(rest[0] == segs@[i as int]@);
            assert(rest.drop_first() =~= all.subrange(i + 1, count as int));
            match &self.nodes[cur] {
                MemoryEntry::File(_) => {
                    return Err(FoldyError::InvalidPath);
                },
                MemoryEntry::Directory(ch) => {
                    assert(kids(v, cur as int) == ch@.map_values(
                        |c: (Vec<u8>, usize)| (c.0@, c.1 as nat),
                    ));
                    match find_child_exec(ch, &segs[i]) {
                        None => {
                            return Err(FoldyError::DirectoryNotFound);
                        },
                        Some(k) => {
                            assert(kids(v, cur as int)[k as int].1 == ch@[k as int].1);
                            cur = ch[k].1;
                        },
                    }
                },
            }
            i = i + 1;
        }
        assert(all.subrange(i as int, count as int) =~= Seq::<Seq<u8>>::empty());
        Ok(cur)
    }

    /// Appends `node` to the arena and links it under directory `p` as `name`.
    fn add_child(&mut self, p: usize, name: Vec<u8>, node: MemoryEntry)
        requires
            wf(old(self)@),
            is_dir(old(self)@, p as int),
            find_child(kids(old(self)@, p as int), name@) < 0,
            node@ matches NodeView::Dir(c) ==> c.len() == 0,
        ensures
            final(self)@ == with_child(old(self)@, p as int, name@, node@),
            wf(final(self)@),
    {
        let ghost v = self@;
        let ghost nv = node@;
        let n = self.nodes.len();
        self.nodes.push(node);
        match &mut self.nodes[p] {
            MemoryEntry::Directory(ch) => {
                let ghost before = ch@;
                ch.push((name, n));
                assert(ch@.map_values(|c: (Vec<u8>, usize)| (c.0@, c.1 as nat)) =~= before.map_values(
                    |c: (Vec<u8>, usize)| (c.0@, c.1 as nat),
                ).push((name@, n as nat)));
            },
            MemoryEntry::File(_) => {},
        }
        assert(self@ =~= with_child(v, p as int, name@, nv));
        proof {
            lemma_with_child_wf(v, p as int, name@, nv);
        }
    }

    /// Splits `path` and resolves all but its last segment to a directory.
    /// Returns that directory and the last segment.
    fn parent_and_name(&self, path: &str) -> (r: Result<(usize, Vec<u8>), FoldyError>)
        requires
            wf(self@),
        ensures
            match r {
                Ok((p, name)) => parent_of(self@, path_segments(path)) == Ok::<int, FoldyError>(
                    p as int,
                ) && name@ == path_segments(path).last() && p < self@.len(),
                Err(e) => parent_of(self@, path_segments(path)) == Err::<int, FoldyError>(e),
            },
    {
        let mut segs = split_path(path.as_bytes());
        let ghost all = views(segs@);
        let n = segs.len();
        if n == 0 {
            return Err(FoldyError::InvalidPath);
        }
        assert(all.subrange(0, n - 1) =~= all.drop_last());
        let p = match self.locate(&segs, n - 1) {
            Ok(p) => p,
            Err(e) => {
                return Err(e);
            },
        };
        let name = match segs.pop() {
            Some(name) => name,
            None => {
                return Err(FoldyError::InvalidPath);
            },
        };
        assert(name@ == all[n - 1]);
        match &self.nodes[p] {
            MemoryEntry::File(_) => Err(FoldyError::InvalidPath),
            MemoryEntry::Directory(_) => Ok((p, name)),
        }
    }

    /// Looks up the child called `name` of directory `p`: its position among
    /// the children and its node.
    fn child_of(&self, p: usize, name: &Vec<u8>) -> (r: Option<(usize, usize)>)
        requires
            wf(self@),
            is_dir(self@, p as int),
        ensures
            match r {
                Some((k, c)) => find_child(kids(self@, p as int), name@) == k && k < kids(
                    self@,
                    p as int,
                ).len() && c == kids(
                    self@,
                    p as int,
                )[k as int].1 && c < self@.len(),
                None => find_child(kids(self@, p as int), name@) < 0,
            },
    {
        match &self.nodes[p] {
            MemoryEntry::Directory(ch) => {
                assert(kids(self@, p as int) == ch@.map_values(
                    |c: (Vec<u8>, usize)| (c.0@, c.1 as nat),
                ));
                match find_child_exec(ch, name) {
                    Some(k) => {
                        assert(kids(self@, p as int)[k as int].1 == ch@[k as int].1);
                        Some((k, ch[k].1))
                    },
                    None => None,
                }
            },
            MemoryEntry::File(_) => None,
        }
    }

    /// Whether node `c` is a directory.
    fn node_is_dir(&self, c: usize) -> (r: bool)
        requires
            c < self@.len(),
        ensures
            r == is_dir(self@, c as int),
    {
        match &self.nodes[c] {
            MemoryEntry::Directory(_) => true,
            MemoryEntry::File(_) => false,
        }
    }

    /// Creates the directory `path`. Every segment before the last must lead
    /// through existing directories. An existing directory at `path` is left
    /// as it is and the call succeeds; an existing file there is an invalid
    /// path.
    pub fn create_dir(&mut self, path: &str) -> (r: Result<(), FoldyError>)
        requires
            wf(old(self)@),
        ensures
            (r, final(self)@) == create_dir_spec(old(self)@, path_segments(path)),
            wf(final(self)@),
    {
        let (p, name) = match self.parent_and_name(path) {
            Ok(x) => x,
            Err(e) => {
                return Err(e);
            },
        };
        match self.child_of(p, &name) {
            Some((_, c)) => {
                if self.node_is_dir(c) {
                    Ok(())
                } else {
                    Err(FoldyError::InvalidPath)
                }
            },
            None => {
                let children: Vec<(Vec<u8>, usize)> = Vec::new();
                assert(children@.map_values(|c: (Vec<u8>, usize)| (c.0@, c.1 as nat))
                    =~= Seq::empty());
                let node = MemoryEntry::Directory(children);
                self.add_child(p, name, node);
                Ok(())
            },
        }
    }

    /// Opens the file at `path` for reading. A missing entry anywhere on the
    /// path, the last one included, is a missing directory; a segment before
    /// the last that names a file is an invalid path; a directory at `path` is
    /// not a file.
    pub fn open(&self, path: &str) -> (r: Result<&MemoryFile, FoldyError>)
        requires
            wf(self@),
        ensures
            match open_spec(self@, path_segments(path)) {
                Ok(c) => r matches Ok(f) && self@[c] == NodeView::File(f@),
                Err(e) => r matches Err(e2) && e2 == e,
            },
    {
        let segs = split_path(path.as_bytes());
        let n = segs.len();
        assert(views(segs@).subrange(0, n as int) =~= views(segs@));
        let c = match self.locate(&segs, n) {
            Ok(c) => c,
            Err(e) => {
                return Err(e);
            },
        };
        match &self.nodes[c] {
            MemoryEntry::File(f) => Ok(f),
            MemoryEntry::Directory(_) => Err(FoldyError::FileNotFound),
        }
    }

    /// Opens the file at `path` for writing, creating it empty when it does
    /// not exist yet. Every segment before the last must lead through
    /// existing directories; a directory at `path` is an invalid path.
    pub fn open_mut(&mut self, path: &str) -> (r: Result<&mut MemoryFile, FoldyError>)
        requires
            wf(old(self)@),
        ensures
            match open_mut_spec(old(self)@, path_segments(path)) {
                Ok((k, placed)) => r matches Ok(f) && placed[k] == NodeView::File(f@)
                    && final(self)@ == placed.update(k, NodeView::File(final(f)@)) && wf(
                    final(self)@,
                ),
                Err(e) => r matches Err(e2) && e2 == e && final(self)@ == old(self)@,
            },
    {
        let (p, name) = match self.parent_and_name(path) {
            Ok(x) => x,
            Err(e) => {
                return Err(e);
            },
        };
        let c = match self.child_of(p, &name) {
            Some((_, c)) => {
                if self.node_is_dir(c) {
                    return Err(FoldyError::InvalidPath);
                }
                c
            },
            None => {
                let n = self.nodes.len();
                let node = MemoryEntry::File(MemoryFile::default());
                self.add_child(p, name, node);
                n
            },
        };
        let ghost placed = self@;
        proof {
            lemma_file_update_wf(placed, c as int);
            lemma_nodes_view_update(self.nodes@, c as int);
        }
        match &mut self.nodes[c] {
            MemoryEntry::File(f) => Ok(f),
            MemoryEntry::Directory(_) => Err(FoldyError::InvalidPath),
        }
    }

    /// Removes the empty directory at `path`. A missing entry is a missing
    /// directory; a file, a directory that still has children, or the root
    /// is an invalid path.
    pub fn remove_dir(&mut self, path: &str) -> (r: Result<(), FoldyError>)
        requires
            wf(old(self)@),
        ensures
            (r, final(self)@) == remove_dir_spec(old(self)@, path_segments(path)),
            wf(final(self)@),
    {
        let (p, name) = match self.parent_and_name(path) {
            Ok(x) => x,
            Err(e) => {
                return Err(e);
            },
        };
        let (k, c) = match self.child_of(p, &name) {
            Some(x) => x,
            None => {
                return Err(FoldyError::DirectoryNotFound);
            },
        };
        let empty = match &self.nodes[c] {
            MemoryEntry::Directory(ch) => ch.len() == 0,
            MemoryEntry::File(_) => false,
        };
        if !empty {
            return Err(FoldyError::InvalidPath);
        }
        let ghost v = self@;
        match &mut self.nodes[p] {
            MemoryEntry::Directory(ch) => {
                let ghost before = ch@;
                assert(before.map_values(|c: (Vec<u8>, usize)| (c.0@, c.1 as nat)) == kids(
                    v,
                    p as int,
                ));
                ch.remove(k);
                assert(ch@.map_values(|c: (Vec<u8>, usize)| (c.0@, c.1 as nat)) =~= before.map_values(
                    |c: (Vec<u8>, usize)| (c.0@, c.1 as nat),
                ).remove(k as int));
            },
            MemoryEntry::File(_) => {},
        }
        assert(self@ =~= v.update(p as int, NodeView::Dir(kids(v, p as int).remove(k as int))));
        proof {
            lemma_remove_child_wf(v, p as int, k as int);
        }
        Ok(())
    }

    /// Lists the direct children of the directory at `path`, each by its
    /// absolute path, in the order they were added. A file there is an
    /// invalid path.
    pub fn read_dir(&self, path: &str) -> (r: Result<MemoryDirIter, FoldyError>)
        requires
            wf(self@),
        ensures
            match read_dir_spec(self@, path_segments(path)) {
                Ok(list) => r matches Ok(it) && it@ == list,
                Err(e) => r matches Err(e2) && e2 == e,
            },
    {
        let segs = split_path(path.as_bytes());
        let n = segs.len();
        assert(views(segs@).subrange(0, n as int) =~= views(segs@));
        let c = match self.locate(&segs, n) {
            Ok(c) => c,
            Err(e) => {
                return Err(e);
            },
        };
        let base = crate::path::join_path(&segs);
        match &self.nodes[c] {
            MemoryEntry::File(_) => Err(FoldyError::InvalidPath),
            MemoryEntry::Directory(ch) => {
                let ghost list = kids(self@, c as int).map_values(
                    |e: (Seq<u8>, nat)| join(views(segs@).push(e.0)),
                );
                assert(kids(self@, c as int) == ch@.map_values(
                    |c: (Vec<u8>, usize)| (c.0@, c.1 as nat),
                ));
                let len = ch.len();
                let mut pending: Vec<DirEntry> = Vec::new();
                let mut i: usize = len;
                while i > 0
                    invariant
                        i <= len,
                        len == ch@.len(),
                        len == list.len(),
                        base@ == join(views(segs@)),
                        list == ch@.map_values(|c: (Vec<u8>, usize)| (c.0@, c.1 as nat)).map_values(
                            |e: (Seq<u8>, nat)| join(views(segs@).push(e.0)),
                        ),
                        pending@.len() == len - i,
                        forall|t: int|
                            0 <= t < len - i ==> #[trigger] pending@[t].path@ == list[len - 1 - t],
                    decreases i,
                {
                    i = i - 1;
                    let full = child_path(&base, &ch[i].0);
                    assert(views(segs@).push(ch@[i as int].0@).drop_last() =~= views(segs@));
                    pending.push(DirEntry { path: full });
                }
                let it = MemoryDirIter { pending };
                assert(it@ =~= list);
                Ok(it)
            },
        }
    }
}

impl Source for MemorySource {
    type Stream = MemoryFile;

    type DirIter = MemoryDirIter;

    open spec fn inv(&self) -> bool {
        wf(self@)
    }

    fn read_dir(&self, path: &str) -> (r: Result<MemoryDirIter, FoldyError>) {
        MemorySource::read_dir(self, path)
    }

    fn create_dir(&mut self, path: &str) -> (r: Result<(), FoldyError>) {
        MemorySource::create_dir(self, path)
    }

    fn remove_dir(&mut self, path: &str) -> (r: Result<(), FoldyError>) {
        MemorySource::remove_dir(self, path)
    }

    fn open(&self, path: &str) -> (r: Result<&MemoryFile, FoldyError>) {
        MemorySource::open(self, path)
    }

    fn open_mut(&mut self, path: &str) -> (r: Result<&mut MemoryFile, FoldyError>) {
        MemorySource::open_mut(self, path)
    }
}

} // verus!
