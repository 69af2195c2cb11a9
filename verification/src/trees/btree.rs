use crate::trees::page::{
    cell_as,
    cell_encoding,
    cell_from_bytes,
    cell_width,
    filled,
    insert_pos,
    kind_consistent,
    keys_strictly_sorted,
    keys_sorted,
    lemma_cell_bytes_roundtrip,
    lemma_filled_sorted,
    lemma_lower_bound_sorted,
    BtreeError,
    Cell,
    Page,
    PageKind,
    HEADER_SIZE,
    PAGE_SIZE,
    SLOT_SIZE,
};
use std::collections::HashMap;
use vstd::prelude::*;
use vstd::slice::slice_subrange;

verus! {

broadcast use vstd::std_specs::hash::group_hash_axioms;

/// Minimum degree of the tree: pages hold at most `2 * DEGREE - 2` keys at
/// rest and a page that reaches `2 * DEGREE - 1` is split; pages other than
/// the root hold at least `DEGREE - 1` keys.
pub const DEGREE: usize = 3;

/// `e` is what flushing page `id` of `pages` gives: its offset in the tree
/// file and its bytes.
pub open spec fn written_as(pages: Map<u32, Page>, id: u32, e: (u64, Vec<u8>)) -> bool {
    e.0 == id as int * PAGE_SIZE as int && e.1@ == pages[id].bytes()
}

/// `e` is what flushing some page of `pages` gives.
pub open spec fn written_from(pages: Map<u32, Page>, e: (u64, Vec<u8>)) -> bool {
    exists|id: u32| #[trigger] pages.contains_key(id) && written_as(pages, id, e)
}

/// The page cache: every page of the tree, by id, and the next id to hand
/// out.
pub struct Pager {
    frames: HashMap<u32, Page>,
    next_id: u32,
}

impl Pager {
    /// The pages held, by id.
    pub closed spec fn pages(self) -> Map<u32, Page> {
        self.frames@
    }

    /// The id that `allocate` hands out next.
    pub closed spec fn next(self) -> u32 {
        self.next_id
    }

    /// An empty cache whose first page gets id 1.
    pub fn new() -> (p: Pager)
        ensures
            p.pages() == Map::<u32, Page>::empty(),
            p.next() == 1,
    {
        Pager { frames: HashMap::new(), next_id: 1 }
    }

    /// The page with the given id.
    pub fn fetch(&self, id: u32) -> (p: &Page)
        requires
            self.pages().contains_key(id),
        ensures
            *p == self.pages()[id],
    {
        self.frames.get(&id).unwrap()
    }

    /// Takes the page with the given id out of the cache.
    fn take(&mut self, id: u32) -> (p: Page)
        requires
            old(self).pages().contains_key(id),
        ensures
            p == old(self).pages()[id],
            final(self).pages() == old(self).pages().remove(id),
            final(self).next() == old(self).next(),
    {
        self.frames.remove(&id).unwrap()
    }

    /// Puts a page into the cache under the given id.
    fn put(&mut self, id: u32, page: Page)
        ensures
            final(self).pages() == old(self).pages().insert(id, page),
            final(self).next() == old(self).next(),
    {
        self.frames.insert(id, page);
    }

    /// Hands out a fresh id with a page of zeros under it.
    pub fn allocate(&mut self) -> (id: u32)
        requires
            old(self).next() < u32::MAX,
        ensures
            id == old(self).next(),
            final(self).next() == old(self).next() + 1,
            final(self).pages() == old(self).pages().insert(id, final(self).pages()[id]),
            final(self).pages()[id].bytes() == Seq::new(PAGE_SIZE as nat, |i: int| 0u8),
    {
        let id = self.next_id;
        self.next_id = self.next_id + 1;
        self.frames.insert(id, Page::zeroed());
        id
    }

    /// Drops the page with the given id from the cache.
    pub fn remove_entry(&mut self, id: u32)
        ensures
            final(self).pages() == old(self).pages().remove(id),
            final(self).next() == old(self).next(),
    {
        self.frames.remove(&id);
    }

    /// Puts into the cache, under `id`, the page read back from the tree
    /// file (the bytes at `page_offset(id)`), unless the cache holds that
    /// page already.
    pub fn load(&mut self, id: u32, bytes: &[u8])
        requires
            bytes@.len() == PAGE_SIZE,
        ensures
            final(self).next() == old(self).next(),
            old(self).pages().contains_key(id) ==> final(self).pages() == old(self).pages(),
            !old(self).pages().contains_key(id) ==> final(self).pages().dom() == old(
                self,
            ).pages().dom().insert(id) && final(self).pages() == old(self).pages().insert(
                id,
                final(self).pages()[id],
            ) && final(self).pages()[id].bytes() == bytes@,
    {
        if !self.frames.contains_key(&id) {
            self.frames.insert(id, Page::from_bytes(bytes));
        }
    }

    /// Takes page `id` out of the cache; returns where it goes in the tree
    /// file and its bytes, or `None` when the cache does not hold it.
    pub fn flush(&mut self, id: u32) -> (r: Option<(u64, Vec<u8>)>)
        ensures
            final(self).pages() == old(self).pages().remove(id),
            final(self).next() == old(self).next(),
            old(self).pages().contains_key(id) <==> r is Some,
            r matches Some((off, bytes)) ==> off == id as int * PAGE_SIZE as int && bytes@ == old(
                self,
            ).pages()[id].bytes(),
    {
        match self.frames.remove(&id) {
            Some(page) => Some((Self::page_offset(id), page.to_bytes())),
            None => None,
        }
    }

    /// Takes every page out of the cache; returns, for each, where it goes
    /// in the tree file and its bytes, in the order in which the cache hands
    /// out its ids.
    pub fn flush_all(&mut self) -> (r: Vec<(u64, Vec<u8>)>)
        ensures
            final(self).pages() == Map::<u32, Page>::empty(),
            final(self).next() == old(self).next(),
            forall|i: int| 0 <= i < r@.len() ==> written_from(old(self).pages(), #[trigger] r@[i]),
            forall|id: u32|
                #[trigger] old(self).pages().contains_key(id) ==> exists|i: int|
                    0 <= i < r@.len() && written_as(old(self).pages(), id, #[trigger] r@[i]),
    {
        let ghost pages0 = self.pages();
        let mut ids: Vec<u32> = Vec::new();
        for id in it: self.frames.keys()
            invariant
                pages0 == self.pages(),
                it.seq().unref().to_set() == pages0.dom(),
                forall|j: int| 0 <= j < ids@.len() ==> #[trigger] pages0.contains_key(ids@[j]),
                forall|k: u32|
                    #[trigger] pages0.contains_key(k) ==> ids@.contains(k) || exists|j: int|
                        it.index() <= j < it.seq().len() && *it.seq()[j] == k,
        {
            proof {
                assert(it.seq().unref()[it.index() as int] == *id);
                assert(it.seq().unref().to_set().contains(*id));
            }
            let ghost ids0 = ids@;
            ids.push(*id);
            proof {
                assert forall|k: u32| #[trigger] pages0.contains_key(k) implies ids@.contains(k) || exists|j: int|
                    it.index() + 1 <= j < it.seq().len() && *it.seq()[j] == k by {
                    if ids0.contains(k) {
                        let t = choose|t: int| 0 <= t < ids0.len() && ids0[t] == k;
                        assert(ids@[t] == k);
                    } else if *id == k {
                        assert(ids@[ids0.len() as int] == k);
                    }
                }
            }
        }
        proof {
            assert forall|k: u32| #[trigger] pages0.contains_key(k) implies ids@.contains(k) by {}
        }
        let mut out: Vec<(u64, Vec<u8>)> = Vec::new();
        let n = ids.len();
        let mut i: usize = 0;
        while i < n
            invariant
                i <= n,
                n == ids@.len(),
                forall|j: int| 0 <= j < ids@.len() ==> #[trigger] pages0.contains_key(ids@[j]),
                forall|k: u32| #[trigger] pages0.contains_key(k) ==> ids@.contains(k),
                self.next() == old(self).next(),
                pages0 == old(self).pages(),
                forall|k: u32|
                    #[trigger] self.pages().contains_key(k) ==> pages0.contains_key(k) && self.pages()[k]
                        == pages0[k] && !ids@.take(i as int).contains(k),
                forall|k: u32|
                    #[trigger] pages0.contains_key(k) && !ids@.take(i as int).contains(k)
                        ==> self.pages().contains_key(k),
                forall|t: int| 0 <= t < out@.len() ==> written_from(pages0, #[trigger] out@[t]),
                forall|j: int|
                    0 <= j < i ==> exists|t: int|
                        0 <= t < out@.len() && written_as(pages0, #[trigger] ids@[j], out@[t]),
            decreases n - i,
        {
            let id = ids[i];
            let ghost before = self.pages();
            let ghost out0 = out@;
            match self.flush(id) {
                Some(e) => {
                    out.push(e);
                    proof {
                        assert(written_as(pages0, id, e));
                        assert(out@[out0.len() as int] == e);
                        assert(written_from(pages0, out@[out0.len() as int]));
                    }
                },
                None => {
                    proof {
                        assert(ids@[i as int] == id);
                        assert(pages0.contains_key(id));
                        assert(ids@.take(i as int).contains(id));
                    }
                },
            }
            proof {
                assert(ids@.take(i + 1) =~= ids@.take(i as int).push(id));
                assert forall|k: u32| #[trigger] pages0.contains_key(k) && !ids@.take(i + 1).contains(k)
                    implies self.pages().contains_key(k) by {
                    assert(!ids@.take(i as int).contains(k)) by {
                        if ids@.take(i as int).contains(k) {
                            let t = choose|t: int| 0 <= t < i && #[trigger] ids@.take(i as int)[t] == k;
                            assert(ids@.take(i + 1)[t] == k);
                        }
                    }
                    assert(k != id) by {
                        assert(ids@.take(i + 1)[i as int] == id);
                    }
                }
                assert forall|k: u32| #[trigger] self.pages().contains_key(k) implies pages0.contains_key(k)
                    && self.pages()[k] == pages0[k] && !ids@.take(i + 1).contains(k) by {
                    assert(before.contains_key(k));
                    assert(k != id);
                    if ids@.take(i + 1).contains(k) {
                        let t = choose|t: int| 0 <= t < i + 1 && #[trigger] ids@.take(i + 1)[t] == k;
                        if t < i {
                            assert(ids@.take(i as int)[t] == k);
                        }
                    }
                }
                assert forall|t: int| 0 <= t < out@.len() implies written_from(pages0, #[trigger] out@[t]) by {
                    if t < out0.len() {
                        assert(out@[t] == out0[t]);
                    }
                }
                assert forall|j: int| 0 <= j < i + 1 implies exists|t: int|
                    0 <= t < out@.len() && written_as(pages0, #[trigger] ids@[j], out@[t]) by {
                    if j < i {
                        let t = choose|t: int| 0 <= t < out0.len() && written_as(pages0, ids@[j], out0[t]);
                        assert(out@[t] == out0[t]);
                    } else if before.contains_key(id) {
                        assert(written_as(pages0, ids@[j], out@[out0.len() as int]));
                    } else {
                        let j2 = choose|j2: int| 0 <= j2 < i && #[trigger] ids@.take(i as int)[j2] == id;
                        let t = choose|t: int| 0 <= t < out0.len() && written_as(pages0, ids@[j2], out0[t]);
                        assert(out@[t] == out0[t]);
                    }
                }
            }
            i = i + 1;
        }
        proof {
            assert(ids@.take(n as int) =~= ids@);
            assert(self.pages() =~= Map::<u32, Page>::empty()) by {
                assert forall|k: u32| !self.pages().contains_key(k) by {
                    if self.pages().contains_key(k) {
                        assert(pages0.contains_key(k));
                    }
                }
            }
            assert forall|k: u32| #[trigger] pages0.contains_key(k) implies exists|t: int|
                0 <= t < out@.len() && written_as(pages0, k, #[trigger] out@[t]) by {
                let j = choose|j: int| 0 <= j < ids@.len() && ids@[j] == k;
                assert(ids@[j] == k);
            }
        }
        out
    }

    /// Byte offset of a page in the tree file.
    pub fn page_offset(id: u32) -> (off: u64)
        ensures
            off == id as int * PAGE_SIZE as int,
    {
        proof {
            assert((id as int) * 4096 <= 0xffff_ffffint * 4096) by (nonlinear_arith)
                requires
                    id <= 0xffff_ffff,
            ;
        }
        id as u64 * PAGE_SIZE as u64
    }
}

/// Ghost bookkeeping for the pages of a tree: each page's level (leaves are
/// at level 0), its parent, and the open interval of keys its subtree may
/// hold (`None` meaning unbounded).
pub ghost struct Shape {
    pub level: Map<u32, nat>,
    pub parent: Map<u32, u32>,
    pub lo: Map<u32, Option<i64>>,
    pub hi: Map<u32, Option<i64>>,
}

/// `k` lies above the lower bound.
pub open spec fn above(k: i64, lo: Option<i64>) -> bool {
    match lo {
        Some(l) => l < k,
        None => true,
    }
}

/// `k` lies below the upper bound.
pub open spec fn below(k: i64, hi: Option<i64>) -> bool {
    match hi {
        Some(h) => k < h,
        None => true,
    }
}

/// `k` lies strictly between the bounds.
pub open spec fn within(k: i64, lo: Option<i64>, hi: Option<i64>) -> bool {
    above(k, lo) && below(k, hi)
}

/// Lower bound `a` is no higher than lower bound `b`.
pub open spec fn lo_le(a: Option<i64>, b: Option<i64>) -> bool {
    match (a, b) {
        (None, _) => true,
        (Some(x), Some(y)) => x <= y,
        (Some(_), None) => false,
    }
}

/// Upper bound `a` is no higher than upper bound `b`.
pub open spec fn hi_le(a: Option<i64>, b: Option<i64>) -> bool {
    match (a, b) {
        (_, None) => true,
        (Some(x), Some(y)) => x <= y,
        (None, Some(_)) => false,
    }
}

/// Number of keys of a page.
pub open spec fn n_keys(p: Page) -> int {
    p.cells().len() as int
}

/// Key `i` of a page.
pub open spec fn key_at(p: Page, i: int) -> i64 {
    p.cells()[i].key
}

/// The page is a leaf.
pub open spec fn is_leaf(p: Page) -> bool {
    p.hdr().page_ty == PageKind::Leaf
}

/// Child `i` of a non-leaf page: the pointer of cell `i`, or the rightmost
/// pointer for `i == n_keys`.
pub open spec fn child_at(p: Page, i: int) -> u32 {
    if i < n_keys(p) {
        p.cells()[i].c_ptr->0
    } else {
        p.hdr().rightmost_ptr
    }
}

/// Lower bound for child `i` of a page whose own lower bound is `lo`.
pub open spec fn child_lo(p: Page, lo: Option<i64>, i: int) -> Option<i64> {
    if i == 0 {
        lo
    } else {
        Some(key_at(p, i - 1))
    }
}

/// Upper bound for child `i` of a page whose own upper bound is `hi`.
pub open spec fn child_hi(p: Page, hi: Option<i64>, i: int) -> Option<i64> {
    if i == n_keys(p) {
        hi
    } else {
        Some(key_at(p, i))
    }
}

/// The keys stored on a page.
pub open spec fn page_keys(p: Page) -> Set<i64> {
    Set::new(|k: i64| exists|i: int| 0 <= i < n_keys(p) && key_at(p, i) == k)
}

/// The page's cells sit packed at the end of the page: exactly one cell
/// width used per key.
pub open spec fn compact(p: Page) -> bool {
    p.hdr().free_end == PAGE_SIZE - cell_width(p.hdr().page_ty) * n_keys(p)
}

/// Everything that page `id` must satisfy on its own and towards its
/// children, apart from how many keys it holds.
pub open spec fn node_ok(pages: Map<u32, Page>, g: Shape, id: u32) -> bool {
    let p = pages[id];
    &&& p.wf()
    &&& compact(p)
    &&& keys_strictly_sorted(p.cells())
    &&& g.level.contains_key(id)
    &&& g.lo.contains_key(id)
    &&& g.hi.contains_key(id)
    &&& forall|i: int| 0 <= i < n_keys(p) ==> within(#[trigger] key_at(p, i), g.lo[id], g.hi[id])
    &&& (g.level[id] == 0) == is_leaf(p)
    &&& !is_leaf(p) ==> forall|i: int|
        0 <= i <= n_keys(p) ==> {
            let c = #[trigger] child_at(p, i);
            &&& pages.contains_key(c)
            &&& g.level.contains_key(c)
            &&& g.parent.contains_key(c)
            &&& g.level[c] + 1 == g.level[id]
            &&& g.parent[c] == id
            &&& g.lo[c] == child_lo(p, g.lo[id], i)
            &&& g.hi[c] == child_hi(p, g.hi[id], i)
        }
}

/// Page `id` holds a number of keys allowed at rest: up to `2 * DEGREE - 2`,
/// and at least `DEGREE - 1` unless it is the root (a non-leaf root holds at
/// least one).
pub open spec fn occupancy_ok(pages: Map<u32, Page>, g: Shape, root: u32, id: u32) -> bool {
    let n = n_keys(pages[id]);
    &&& n <= 2 * DEGREE - 2
    &&& id == root ==> (g.level[id] > 0 ==> n >= 1)
    &&& id != root ==> n >= DEGREE - 1
}

/// The pages form one search tree under `root`: every page is well formed
/// towards its children, every page but the root is a child of its recorded
/// parent, the root has the highest level and no bounds.
pub open spec fn shape_ok(pages: Map<u32, Page>, g: Shape, root: u32) -> bool {
    &&& pages.contains_key(root)
    &&& g.lo.contains_key(root) && g.lo[root] == None::<i64>
    &&& g.hi.contains_key(root) && g.hi[root] == None::<i64>
    &&& forall|id: u32| #[trigger] pages.contains_key(id) ==> node_ok(pages, g, id)
    &&& forall|id: u32|
        #[trigger] pages.contains_key(id) && id != root ==> {
            &&& g.level[id] < g.level[root]
            &&& pages.contains_key(g.parent[id])
            &&& !is_leaf(pages[g.parent[id]])
            &&& exists|i: int|
                0 <= i <= n_keys(pages[g.parent[id]]) && #[trigger] child_at(
                    pages[g.parent[id]],
                    i,
                ) == id
        }
}

/// The ancestor `n` levels above page `p`.
pub open spec fn anc(g: Shape, p: u32, n: nat) -> u32
    decreases n,
{
    if n == 0 {
        p
    } else {
        anc(g, g.parent[p], (n - 1) as nat)
    }
}

/// The bounds of a child lie inside those of its parent.
proof fn lemma_child_bounds(pages: Map<u32, Page>, g: Shape, id: u32, i: int)
    requires
        pages.contains_key(id),
        node_ok(pages, g, id),
        !is_leaf(pages[id]),
        0 <= i <= n_keys(pages[id]),
    ensures
        lo_le(g.lo[id], child_lo(pages[id], g.lo[id], i)),
        hi_le(child_hi(pages[id], g.hi[id], i), g.hi[id]),
        forall|x: i64|
            within(x, child_lo(pages[id], g.lo[id], i), child_hi(pages[id], g.hi[id], i)) ==> within(
                x,
                g.lo[id],
                g.hi[id],
            ),
{
    let p = pages[id];
    if i > 0 {
        assert(within(key_at(p, i - 1), g.lo[id], g.hi[id]));
    }
    if i < n_keys(p) {
        assert(within(key_at(p, i), g.lo[id], g.hi[id]));
    }
}

/// Walking up from a page: the ancestor `n` levels up is a page of the tree
/// at that level, its bounds contain the page's, and (for `n > 0`) the
/// ancestor one level lower is one of its children.
proof fn lemma_anc(pages: Map<u32, Page>, g: Shape, root: u32, p: u32, n: nat)
    requires
        shape_ok(pages, g, root),
        pages.contains_key(p),
        g.level[p] + n <= g.level[root],
    ensures
        pages.contains_key(anc(g, p, n)),
        g.level[anc(g, p, n)] == g.level[p] + n,
        forall|x: i64| within(x, g.lo[p], g.hi[p]) ==> within(x, g.lo[anc(g, p, n)], g.hi[anc(g, p, n)]),
        n > 0 ==> {
            let a = anc(g, p, n);
            let b = anc(g, p, (n - 1) as nat);
            &&& !is_leaf(pages[a])
            &&& exists|i: int|
                0 <= i <= n_keys(pages[a]) && #[trigger] child_at(pages[a], i) == b && g.lo[b]
                    == child_lo(pages[a], g.lo[a], i) && g.hi[b] == child_hi(pages[a], g.hi[a], i)
        },
    decreases n,
{
    if n > 0 {
        assert(node_ok(pages, g, p));
        assert(p != root);
        let pp = g.parent[p];
        assert(pages.contains_key(pp));
        let i = choose|i: int| 0 <= i <= n_keys(pages[pp]) && #[trigger] child_at(pages[pp], i) == p;
        assert(node_ok(pages, g, pp));
        assert(child_at(pages[pp], i) == p);
        lemma_child_bounds(pages, g, pp, i);
        lemma_anc(pages, g, root, pp, (n - 1) as nat);
        if n > 1 {
            lemma_anc(pages, g, root, p, (n - 1) as nat);
            let a = anc(g, p, n);
            let b = anc(g, p, (n - 1) as nat);
            assert(anc(g, pp, (n - 1) as nat) == a);
            assert(anc(g, pp, (n - 2) as nat) == b);
        } else {
            assert(anc(g, p, 0) == p);
            assert(anc(g, pp, 0) == pp);
        }
    }
}

/// Two pages at the same level whose bounds share a key are the same page.
proof fn lemma_unique_at_level(pages: Map<u32, Page>, g: Shape, root: u32, p: u32, q: u32, x: i64)
    requires
        shape_ok(pages, g, root),
        pages.contains_key(p),
        pages.contains_key(q),
        g.level[p] == g.level[q],
        within(x, g.lo[p], g.hi[p]),
        within(x, g.lo[q], g.hi[q]),
    ensures
        p == q,
    decreases g.level[root] - g.level[p],
{
    assert(node_ok(pages, g, p));
    if p == root || q == root {
        assert(p == root && q == root);
    } else {
        let pp = g.parent[p];
        let pq = g.parent[q];
        let i = choose|i: int| 0 <= i <= n_keys(pages[pp]) && #[trigger] child_at(pages[pp], i) == p;
        let j = choose|j: int| 0 <= j <= n_keys(pages[pq]) && #[trigger] child_at(pages[pq], j) == q;
        assert(node_ok(pages, g, pp));
        assert(node_ok(pages, g, pq));
        assert(child_at(pages[pp], i) == p);
        assert(child_at(pages[pq], j) == q);
        lemma_child_bounds(pages, g, pp, i);
        lemma_child_bounds(pages, g, pq, j);
        lemma_unique_at_level(pages, g, root, pp, pq, x);
        let pg = pages[pp];
        if i < j {
            assert(key_at(pg, i) <= key_at(pg, j - 1));
        } else if j < i {
            assert(key_at(pg, j) <= key_at(pg, i - 1));
        }
    }
}

/// A key that the search path misses is in no page: if `val` lies within the
/// bounds of a leaf that does not hold it, no page of the tree holds it.
#[verifier::rlimit(100)]
#[verifier::spinoff_prover]
proof fn lemma_leaf_absent(pages: Map<u32, Page>, g: Shape, root: u32, p: u32, val: i64, q: u32)
    requires
        shape_ok(pages, g, root),
        pages.contains_key(p),
        is_leaf(pages[p]),
        within(val, g.lo[p], g.hi[p]),
        !page_keys(pages[p]).contains(val),
        pages.contains_key(q),
    ensures
        !page_keys(pages[q]).contains(val),
{
    if page_keys(pages[q]).contains(val) {
        let j = choose|j: int| 0 <= j < n_keys(pages[q]) && key_at(pages[q], j) == val;
        assert(node_ok(pages, g, q));
        assert(node_ok(pages, g, p));
        assert(within(key_at(pages[q], j), g.lo[q], g.hi[q]));
        let l = g.level[q];
        if q != root {
            assert(l < g.level[root]);
        }
        lemma_anc(pages, g, root, p, l);
        let a = anc(g, p, l);
        lemma_unique_at_level(pages, g, root, a, q, val);
        if l == 0 {
            assert(anc(g, p, 0) == p);
            assert(page_keys(pages[p]).contains(val));
        } else {
            let b = anc(g, p, (l - 1) as nat);
            lemma_anc(pages, g, root, p, (l - 1) as nat);
            let qp = pages[q];
            let i = choose|i: int|
                0 <= i <= n_keys(qp) && #[trigger] child_at(qp, i) == b && g.lo[b] == child_lo(
                    qp,
                    g.lo[q],
                    i,
                ) && g.hi[b] == child_hi(qp, g.hi[q], i);
            assert(within(val, g.lo[b], g.hi[b]));
            if j < i {
                assert(key_at(qp, j) <= key_at(qp, i - 1));
            } else {
                assert(i < n_keys(qp));
                assert(key_at(qp, i) <= key_at(qp, j));
            }
        }
    }
}

/// Binary search for `val` among cells sorted by key: `Ok` with its index, or
/// `Err` with the index where it would go.
fn find_key(cells: &Vec<Cell>, val: i64) -> (r: Result<usize, usize>)
    requires
        keys_strictly_sorted(cells@),
    ensures
        match r {
            Ok(i) => i < cells@.len() && cells@[i as int].key == val,
            Err(i) => {
                &&& i <= cells@.len()
                &&& forall|j: int| 0 <= j < i ==> #[trigger] cells@[j].key < val
                &&& forall|j: int| i <= j < cells@.len() ==> #[trigger] cells@[j].key > val
            },
        },
{
    let mut lo: usize = 0;
    let mut hi: usize = cells.len();
    while lo < hi
        invariant
            lo <= hi <= cells@.len(),
            keys_strictly_sorted(cells@),
            forall|j: int| 0 <= j < lo ==> #[trigger] cells@[j].key < val,
            forall|j: int| hi <= j < cells@.len() ==> #[trigger] cells@[j].key > val,
        decreases hi - lo,
    {
        let mid = lo + (hi - lo) / 2;
        let k = cells[mid].key;
        if k == val {
            return Ok(mid);
        } else if k < val {
            proof {
                assert forall|j: int| 0 <= j < mid + 1 implies #[trigger] cells@[j].key < val by {
                    if j < mid {
                        assert(cells@[j].key < cells@[mid as int].key);
                    }
                }
            }
            lo = mid + 1;
        } else {
            proof {
                assert forall|j: int| mid <= j < cells@.len() implies #[trigger] cells@[j].key > val by {
                    if j > mid {
                        assert(cells@[mid as int].key < cells@[j].key);
                    }
                }
            }
            hi = mid;
        }
    }
    Err(lo)
}

/// A B-tree of distinct `i64` keys whose nodes are pages held by a pager.
pub struct Btree {
    pub root_id: u32,
    pub pager: Pager,
    /// Ghost bookkeeping of the pages' levels, parents and key ranges.
    pub shape: Ghost<Shape>,
}

/// The keys held by any page of the map.
pub open spec fn all_keys(pages: Map<u32, Page>) -> Set<i64> {
    Set::new(|k: i64| exists|id: u32| #[trigger] pages.contains_key(id) && page_keys(pages[id]).contains(k))
}

/// The tree invariant, with the key count of page `ex` (if any) allowed to
/// be `ex_n` instead of what `occupancy_ok` asks.
pub open spec fn tree_ok(
    pages: Map<u32, Page>,
    g: Shape,
    root: u32,
    next: u32,
    ex: Option<u32>,
    ex_n: int,
) -> bool {
    &&& shape_ok(pages, g, root)
    &&& forall|id: u32|
        #[trigger] pages.contains_key(id) ==> if ex == Some(id) {
            n_keys(pages[id]) == ex_n
        } else {
            occupancy_ok(pages, g, root, id)
        }
    &&& forall|id: u32| #[trigger] pages.contains_key(id) ==> 1 <= id < next
}

impl Btree {
    /// The tree invariant: the pages form a B-tree of minimum degree
    /// `DEGREE` under `root_id`.
    pub closed spec fn inv(self) -> bool {
        tree_ok(self.pager.pages(), self.shape@, self.root_id, self.pager.next(), None, 0)
    }

    /// The keys held by the tree.
    pub open spec fn keys(self) -> Set<i64> {
        all_keys(self.pager.pages())
    }

    /// The id of the root page.
    pub open spec fn root(self) -> u32 {
        self.root_id
    }

    /// The level of the root page: the number of levels below it.
    pub open spec fn height(self) -> nat {
        self.shape@.level[self.root_id]
    }

    /// The id the pager hands out next.
    pub open spec fn next_page_id(self) -> u32 {
        self.pager.next()
    }

    /// The first child of page `id` (its rightmost child when it has no
    /// keys).
    pub open spec fn first_child(self, id: u32) -> u32 {
        child_at(self.pager.pages()[id], 0)
    }

    /// How `after` mends the last page of the descent `bc` of this tree, if
    /// that page is not the root and holds too few keys (see `mended`).
    pub closed spec fn mended_into(self, after: Btree, bc: Seq<u32>) -> bool {
        mended(self.pager.pages(), self.root_id, after.pager.pages(), after.root_id, bc)
    }

    /// Page `id` is held by the pager.
    pub open spec fn holds_page(self, id: u32) -> bool {
        self.pager.pages().contains_key(id)
    }

    /// The level of page `id`: the number of levels below it.
    pub open spec fn level_of(self, id: u32) -> nat {
        self.shape@.level[id]
    }

    /// The tree invariant with `root` as the root page.
    pub closed spec fn inv_at(self, root: u32) -> bool {
        tree_ok(self.pager.pages(), self.shape@, root, self.pager.next(), None, 0)
    }

    /// Every page of `bc` but the last holds as many keys as a page may hold
    /// at rest.
    pub closed spec fn path_full(self, bc: Seq<u32>) -> bool {
        full_above(self.pager.pages(), bc)
    }

    /// `bc` is a descent from the root whose last page may hold one key fewer
    /// than the tree invariant asks (the root: none at all).
    pub closed spec fn underflowing(self, bc: Seq<u32>) -> bool {
        under_ok(self.pager.pages(), self.shape@, self.root_id, self.pager.next(), bc)
    }

    /// `bc` is a descent from the root whose last page has just taken one key
    /// too many; everything else satisfies the tree invariant.
    pub closed spec fn overflowing(self, bc: Seq<u32>) -> bool {
        &&& is_path(self.pager.pages(), self.shape@, self.root_id, bc)
        &&& tree_ok(
            self.pager.pages(),
            self.shape@,
            self.root_id,
            self.pager.next(),
            Some(bc.last()),
            2 * DEGREE - 1,
        )
    }

    /// Whether the search for `val` from the root reaches it; the tree
    /// invariant makes this the same as `keys().contains(val)`.
    pub fn search(&self, val: i64) -> (r: Result<bool, BtreeError>)
        requires
            self.inv(),
        ensures
            r == Ok::<bool, BtreeError>(self.keys().contains(val)),
    {
        let ghost pages = self.pager.pages();
        let ghost g = self.shape@;
        let ghost root = self.root_id;
        let mut page_id = self.root_id;
        loop
            invariant
                self.inv(),
                pages == self.pager.pages(),
                g == self.shape@,
                root == self.root_id,
                pages.contains_key(page_id),
                within(val, g.lo[page_id], g.hi[page_id]),
            decreases g.level[page_id],
        {
            let page = self.pager.fetch(page_id);
            proof {
                assert(node_ok(pages, g, page_id));
                page.lemma_view();
            }
            let p_hdr = match page.header() {
                Ok(h) => h,
                Err(e) => {
                    return Err(e);
                },
            };
            let cells = match page.get_cells() {
                Ok(c) => c,
                Err(e) => {
                    return Err(e);
                },
            };
            match find_key(&cells, val) {
                Ok(i) => {
                    proof {
                        assert(key_at(pages[page_id], i as int) == val);
                        assert(page_keys(pages[page_id]).contains(val));
                        assert(all_keys(pages).contains(val));
                    }
                    return Ok(true);
                },
                Err(i) => {
                    proof {
                        assert(!page_keys(pages[page_id]).contains(val)) by {
                            if page_keys(pages[page_id]).contains(val) {
                                let j = choose|j: int|
                                    0 <= j < n_keys(pages[page_id]) && key_at(pages[page_id], j)
                                        == val;
                                assert(cells@[j].key == val);
                            }
                        }
                    }
                    if p_hdr.page_ty == PageKind::Leaf {
                        proof {
                            assert forall|q: u32| pages.contains_key(q) implies !page_keys(
                                pages[q],
                            ).contains(val) by {
                                lemma_leaf_absent(pages, g, root, page_id, val, q);
                            }
                            assert(!all_keys(pages).contains(val));
                        }
                        return Ok(false);
                    }
                    let child_page_id = if i < cells.len() {
                        cells[i].c_ptr.unwrap()
                    } else {
                        p_hdr.rightmost_ptr
                    };
                    proof {
                        let pg = pages[page_id];
                        assert(child_at(pg, i as int) == child_page_id);
                        if i > 0 {
                            assert(cells@[i - 1].key < val);
                        }
                        if i < cells@.len() {
                            assert(cells@[i as int].key > val);
                        }
                    }
                    page_id = child_page_id;
                },
            }
        }
    }
}

/// `bc` is a descent from the root: each entry a page one level below the
/// one before it and a child of it.
pub open spec fn is_path(pages: Map<u32, Page>, g: Shape, root: u32, bc: Seq<u32>) -> bool {
    &&& bc.len() >= 1
    &&& bc[0] == root
    &&& forall|i: int|
        0 <= i < bc.len() ==> pages.contains_key(#[trigger] bc[i]) && g.level[bc[i]] + i
            == g.level[root]
    &&& forall|i: int| 0 <= i < bc.len() - 1 ==> g.parent[#[trigger] bc[i + 1]] == bc[i]
}

/// The keys of the cells of a page, in order.
pub open spec fn keys_of(p: Page) -> Seq<i64> {
    p.cells().map_values(|c: Cell| c.key)
}

/// The children of a non-leaf page, in order (the rightmost pointer last).
pub open spec fn kids_of(p: Page) -> Seq<u32> {
    Seq::new((n_keys(p) + 1) as nat, |i: int| child_at(p, i))
}

impl Btree {
    /// A tree of one leaf page (id 1) holding `val`.
    pub fn new(val: i64) -> (r: Result<Self, BtreeError>)
        ensures
            r is Ok,
            r->Ok_0.inv(),
            r->Ok_0.keys() == Set::<i64>::empty().insert(val),
            r->Ok_0.next_page_id() == 2,
            r->Ok_0.root() == 1,
            r->Ok_0.height() == 0,
    {
        let mut pager = Pager::new();
        let root_id = pager.allocate();
        let mut page = pager.take(root_id);
        let empty: Vec<Cell> = Vec::new();
        match page.reset_and_fill(root_id, PageKind::Leaf, 0, empty.as_slice()) {
            Ok(()) => {},
            Err(e) => {
                return Err(e);
            },
        }
        proof {
            page.lemma_view();
        }
        let c_data = crate::trees::page::i64_to_bytes(val);
        proof {
            page.lemma_header_parses();
        }
        match page.add_cell(c_data.as_slice()) {
            Ok(_) => {},
            Err(e) => {
                return Err(e);
            },
        }
        proof {
            page.lemma_view();
        }
        pager.put(root_id, page);
        let ghost g = Shape {
            level: Map::empty().insert(root_id, 0nat),
            parent: Map::empty(),
            lo: Map::empty().insert(root_id, None),
            hi: Map::empty().insert(root_id, None),
        };
        let t = Btree { root_id, pager, shape: Ghost(g) };
        proof {
            let pages = t.pager.pages();
            assert(pages.dom() =~= Set::empty().insert(root_id));
            let p = pages[root_id];
            assert(p.cells().len() == 1);
            assert(keys_strictly_sorted(p.cells()));
            assert(node_ok(pages, g, root_id));
            assert(all_keys(pages) =~= Set::<i64>::empty().insert(val)) by {
                assert(key_at(p, 0) == val);
                assert(page_keys(p).contains(val));
            }
        }
        Ok(t)
    }

    /// Descends from the root along the search path of `val` and returns the
    /// ids of the pages passed, ending at a leaf; fails when `val` is met on
    /// the way.
    fn get_insertion_breadcrumbs(&self, val: i64) -> (r: Result<Vec<u32>, BtreeError>)
        requires
            self.inv(),
        ensures
            self.keys().contains(val) ==> r == Err::<Vec<u32>, BtreeError>(BtreeError::AlreadyExists),
            !self.keys().contains(val) ==> r is Ok,
            r matches Ok(bc) ==> {
                let pages = self.pager.pages();
                let g = self.shape@;
                &&& is_path(pages, g, self.root_id, bc@)
                &&& is_leaf(pages[bc@.last()])
                &&& within(val, g.lo[bc@.last()], g.hi[bc@.last()])
            },
    {
        let ghost pages = self.pager.pages();
        let ghost g = self.shape@;
        let ghost root = self.root_id;
        let mut breadcrumb: Vec<u32> = Vec::new();
        let mut page_id = self.root_id;
        loop
            invariant
                self.inv(),
                pages == self.pager.pages(),
                g == self.shape@,
                root == self.root_id,
                pages.contains_key(page_id),
                within(val, g.lo[page_id], g.hi[page_id]),
                breadcrumb@.len() == 0 ==> page_id == root,
                breadcrumb@.len() > 0 ==> is_path(pages, g, root, breadcrumb@) && g.parent[page_id]
                    == breadcrumb@.last() && g.level[page_id] + breadcrumb@.len() == g.level[root],
            decreases g.level[page_id],
        {
            let page = self.pager.fetch(page_id);
            proof {
                assert(node_ok(pages, g, page_id));
                page.lemma_view();
            }
            let p_hdr = match page.header() {
                Ok(h) => h,
                Err(e) => {
                    return Err(e);
                },
            };
            let cells = match page.get_cells() {
                Ok(c) => c,
                Err(e) => {
                    return Err(e);
                },
            };
            let ghost bc0 = breadcrumb@;
            breadcrumb.push(page_id);
            proof {
                assert(is_path(pages, g, root, breadcrumb@)) by {
                    if bc0.len() > 0 {
                        assert(breadcrumb@[bc0.len() as int] == page_id);
                        assert forall|i: int| 0 <= i < breadcrumb@.len() - 1 implies g.parent[
                            #[trigger] breadcrumb@[i + 1]] == breadcrumb@[i] by {
                            if i + 1 < bc0.len() {
                                assert(breadcrumb@[i + 1] == bc0[i + 1]);
                            }
                        }
                    }
                }
            }
            match find_key(&cells, val) {
                Ok(i) => {
                    proof {
                        assert(key_at(pages[page_id], i as int) == val);
                        assert(page_keys(pages[page_id]).contains(val));
                        assert(all_keys(pages).contains(val));
                    }
                    return Err(BtreeError::AlreadyExists);
                },
                Err(i) => {
                    proof {
                        assert(!page_keys(pages[page_id]).contains(val)) by {
                            if page_keys(pages[page_id]).contains(val) {
                                let j = choose|j: int|
                                    0 <= j < n_keys(pages[page_id]) && key_at(pages[page_id], j)
                                        == val;
                                assert(cells@[j].key == val);
                            }
                        }
                    }
                    if p_hdr.page_ty == PageKind::Leaf {
                        proof {
                            assert forall|q: u32| pages.contains_key(q) implies !page_keys(
                                pages[q],
                            ).contains(val) by {
                                lemma_leaf_absent(pages, g, root, page_id, val, q);
                            }
                            assert(!all_keys(pages).contains(val));
                        }
                        return Ok(breadcrumb);
                    }
                    let child_page_id = if i < cells.len() {
                        cells[i].c_ptr.unwrap()
                    } else {
                        p_hdr.rightmost_ptr
                    };
                    proof {
                        let pg = pages[page_id];
                        assert(child_at(pg, i as int) == child_page_id);
                        if i > 0 {
                            assert(cells@[i - 1].key < val);
                        }
                        if i < cells@.len() {
                            assert(cells@[i as int].key > val);
                        }
                    }
                    page_id = child_page_id;
                },
            }
        }
    }
}

/// The children of a page are distinct pages.
proof fn lemma_kids_distinct(pages: Map<u32, Page>, g: Shape, id: u32, i: int, j: int)
    requires
        pages.contains_key(id),
        node_ok(pages, g, id),
        !is_leaf(pages[id]),
        0 <= i < j <= n_keys(pages[id]),
    ensures
        child_at(pages[id], i) != child_at(pages[id], j),
{
    let p = pages[id];
    assert(child_at(p, i) == child_at(p, i));
    assert(child_at(p, j) == child_at(p, j));
    if i > 0 {
        assert(key_at(p, i - 1) < key_at(p, j - 1));
    } else {
        assert(within(key_at(p, j - 1), g.lo[id], g.hi[id]));
    }
}

/// Page `q` is one of the children that move from an overflowing page `ox`
/// to the new right page.
pub open spec fn moved(ox: Page, q: u32) -> bool {
    !is_leaf(ox) && exists|i: int| 3 <= i <= 5 && #[trigger] child_at(ox, i) == q
}

/// The ghost bookkeeping after page `x` is split into `x` and the new page
/// `y` under the parent `pid`: `y` takes the upper half, and the children
/// that move with it get `y` as parent.
pub open spec fn split_shape(g: Shape, ox: Page, x: u32, y: u32, pid: u32) -> Shape {
    let k2 = key_at(ox, 2);
    Shape {
        level: g.level.insert(y, g.level[x]),
        parent: Map::new(
            |q: u32| g.parent.contains_key(q) || q == y || moved(ox, q),
            |q: u32|
                if q == y {
                    pid
                } else if moved(ox, q) {
                    y
                } else {
                    g.parent[q]
                },
        ),
        lo: g.lo.insert(y, Some(k2)),
        hi: g.hi.insert(x, Some(k2)).insert(y, g.hi[x]),
    }
}

/// The situation in which `handle_overflow` has split page `x` (five keys)
/// into `left` (its first two cells) and `right` (its last two), the new
/// page `y` being allocated for `right` and `pid` becoming or staying the
/// parent of both.
pub open spec fn split_core(
    pages: Map<u32, Page>,
    g: Shape,
    root: u32,
    next: u32,
    x: u32,
    y: u32,
    pid: u32,
    left: Page,
    right: Page,
) -> bool {
    let ox = pages[x];
    &&& tree_ok(pages, g, root, next, Some(x), 2 * DEGREE - 1)
    &&& pages.contains_key(x)
    &&& g.parent[x] == pid
    &&& pid != x
    &&& pid != y
    &&& y == next
    &&& left.wf()
    &&& compact(left)
    &&& is_leaf(left) == is_leaf(ox)
    &&& left.cells() == ox.cells().subrange(0, 2)
    &&& !is_leaf(ox) ==> left.hdr().rightmost_ptr == child_at(ox, 2)
    &&& right.wf()
    &&& compact(right)
    &&& right.hdr().page_ty == ox.hdr().page_ty
    &&& right.cells() == ox.cells().subrange(3, 5)
    &&& !is_leaf(ox) ==> right.hdr().rightmost_ptr == ox.hdr().rightmost_ptr
}

/// The split of a page that has a parent: the middle key goes into `parent`
/// (the new version of page `pid`), where `x` stays child `idx` and `y`
/// becomes child `idx + 1`.
pub open spec fn split_pre(
    pages: Map<u32, Page>,
    g: Shape,
    root: u32,
    next: u32,
    x: u32,
    y: u32,
    pid: u32,
    idx: int,
    left: Page,
    right: Page,
    parent: Page,
) -> bool {
    let ox = pages[x];
    let op = pages[pid];
    &&& split_core(pages, g, root, next, x, y, pid, left, right)
    &&& x != root
    &&& pages.contains_key(pid)
    &&& 0 <= idx <= n_keys(op)
    &&& child_at(op, idx) == x
    &&& !is_leaf(op)
    &&& parent.wf()
    &&& compact(parent)
    &&& parent.hdr().page_ty == op.hdr().page_ty
    &&& keys_of(parent) == keys_of(op).insert(idx, key_at(ox, 2))
    &&& kids_of(parent) == kids_of(op).update(idx, y).insert(idx, x)
}

/// The pages after the split.
pub open spec fn split_pages(
    pages: Map<u32, Page>,
    x: u32,
    y: u32,
    pid: u32,
    left: Page,
    right: Page,
    parent: Page,
) -> Map<u32, Page> {
    pages.insert(x, left).insert(y, right).insert(pid, parent)
}

/// In `pages2`, page `x` (which held `2 * DEGREE - 1` keys in `ox`) keeps
/// the lower `DEGREE - 1` keys and the new page `y` holds the upper
/// `DEGREE - 1`; the middle key went up.
pub open spec fn split_into(ox: Page, pages2: Map<u32, Page>, x: u32, y: u32) -> bool {
    &&& pages2.contains_key(x)
    &&& pages2.contains_key(y)
    &&& keys_of(pages2[x]) == keys_of(ox).subrange(0, DEGREE - 1)
    &&& keys_of(pages2[y]) == keys_of(ox).subrange(DEGREE as int, 2 * DEGREE - 1)
}

/// The keys of a page made of a run of another page's cells.
proof fn lemma_keys_subrange(p: Page, q: Page, a: int, b: int)
    requires
        0 <= a <= b <= p.cells().len(),
        q.cells() == p.cells().subrange(a, b),
    ensures
        keys_of(q) == keys_of(p).subrange(a, b),
{
    assert(keys_of(q) =~= keys_of(p).subrange(a, b));
}

/// Indexing through `keys_of` and `kids_of`.
proof fn lemma_views(p: Page)
    ensures
        keys_of(p).len() == n_keys(p),
        forall|i: int| 0 <= i < n_keys(p) ==> #[trigger] keys_of(p)[i] == key_at(p, i),
        kids_of(p).len() == n_keys(p) + 1,
        forall|i: int| 0 <= i <= n_keys(p) ==> #[trigger] kids_of(p)[i] == child_at(p, i),
{
}

/// The split keeps page `x` (now the lower half) in order towards its
/// children.
proof fn lemma_split_left(
    pages: Map<u32, Page>,
    g: Shape,
    root: u32,
    next: u32,
    x: u32,
    y: u32,
    pid: u32,
    idx: int,
    left: Page,
    right: Page,
    parent: Page,
)
    requires
        split_core(pages, g, root, next, x, y, pid, left, right),
    ensures
        node_ok(
            split_pages(pages, x, y, pid, left, right, parent),
            split_shape(g, pages[x], x, y, pid),
            x,
        ),
{
    let pages2 = split_pages(pages, x, y, pid, left, right, parent);
    let g2 = split_shape(g, pages[x], x, y, pid);
    let ox = pages[x];
    assert(node_ok(pages, g, x));
    assert(pages2[x] == left);
    assert(!pages.contains_key(y)) by {
        if pages.contains_key(y) {
            assert(y < next);
        }
    }
    assert(forall|i: int| 0 <= i < 2 ==> #[trigger] key_at(left, i) == key_at(ox, i));
    assert(key_at(ox, 1) < key_at(ox, 2));
    if !is_leaf(ox) {
        assert forall|i: int| 0 <= i <= n_keys(left) implies {
            let c = #[trigger] child_at(left, i);
            &&& pages2.contains_key(c)
            &&& g2.level.contains_key(c)
            &&& g2.parent.contains_key(c)
            &&& g2.level[c] + 1 == g2.level[x]
            &&& g2.parent[c] == x
            &&& g2.lo[c] == child_lo(left, g2.lo[x], i)
            &&& g2.hi[c] == child_hi(left, g2.hi[x], i)
        } by {
            let c = child_at(left, i);
            assert(c == child_at(ox, i));
            assert(pages.contains_key(c));
            assert(c != y);
            assert(c != x);
            assert(!moved(ox, c)) by {
                if moved(ox, c) {
                    let j = choose|j: int| 3 <= j <= 5 && #[trigger] child_at(ox, j) == c;
                    lemma_kids_distinct(pages, g, x, i, j);
                }
            }
        }
    }
}

/// The split gives the new page `y` (the upper half) a proper place towards
/// its children.
proof fn lemma_split_right(
    pages: Map<u32, Page>,
    g: Shape,
    root: u32,
    next: u32,
    x: u32,
    y: u32,
    pid: u32,
    idx: int,
    left: Page,
    right: Page,
    parent: Page,
)
    requires
        split_core(pages, g, root, next, x, y, pid, left, right),
    ensures
        node_ok(
            split_pages(pages, x, y, pid, left, right, parent),
            split_shape(g, pages[x], x, y, pid),
            y,
        ),
{
    let pages2 = split_pages(pages, x, y, pid, left, right, parent);
    let g2 = split_shape(g, pages[x], x, y, pid);
    let ox = pages[x];
    assert(node_ok(pages, g, x));
    assert(!pages.contains_key(y)) by {
        if pages.contains_key(y) {
            assert(y < next);
        }
    }
    assert(y != pid && y != x);
    assert(pages2[y] == right);
    assert(forall|i: int| 0 <= i < 2 ==> #[trigger] key_at(right, i) == key_at(ox, i + 3));
    assert(key_at(ox, 2) < key_at(ox, 3));
    assert(within(key_at(ox, 3), g.lo[x], g.hi[x]));
    assert(within(key_at(ox, 4), g.lo[x], g.hi[x]));
    if !is_leaf(ox) {
        assert forall|i: int| 0 <= i <= n_keys(right) implies {
            let c = #[trigger] child_at(right, i);
            &&& pages2.contains_key(c)
            &&& g2.level.contains_key(c)
            &&& g2.parent.contains_key(c)
            &&& g2.level[c] + 1 == g2.level[y]
            &&& g2.parent[c] == y
            &&& g2.lo[c] == child_lo(right, g2.lo[y], i)
            &&& g2.hi[c] == child_hi(right, g2.hi[y], i)
        } by {
            let c = child_at(right, i);
            assert(c == child_at(ox, i + 3));
            assert(pages.contains_key(c));
            assert(c != y);
            assert(c != x);
            assert(moved(ox, c));
        }
    }
}

/// The split keeps the parent in order towards its children: `x` and `y`
/// now sit either side of the promoted key.
proof fn lemma_split_parent(
    pages: Map<u32, Page>,
    g: Shape,
    root: u32,
    next: u32,
    x: u32,
    y: u32,
    pid: u32,
    idx: int,
    left: Page,
    right: Page,
    parent: Page,
)
    requires
        split_pre(pages, g, root, next, x, y, pid, idx, left, right, parent),
    ensures
        node_ok(
            split_pages(pages, x, y, pid, left, right, parent),
            split_shape(g, pages[x], x, y, pid),
            pid,
        ),
{
    let pages2 = split_pages(pages, x, y, pid, left, right, parent);
    let g2 = split_shape(g, pages[x], x, y, pid);
    let ox = pages[x];
    let op = pages[pid];
    let k2 = key_at(ox, 2);
    let n = n_keys(op);
    assert(node_ok(pages, g, x));
    assert(node_ok(pages, g, pid));
    assert(!pages.contains_key(y)) by {
        if pages.contains_key(y) {
            assert(y < next);
        }
    }
    assert(x != pid);
    assert(pages2[pid] == parent);
    lemma_views(op);
    lemma_views(parent);
    assert(n_keys(parent) == n + 1);
    assert(within(k2, g.lo[x], g.hi[x]));
    assert(g.lo[x] == child_lo(op, g.lo[pid], idx));
    assert(g.hi[x] == child_hi(op, g.hi[pid], idx));
    lemma_child_bounds(pages, g, pid, idx);
    // keys of the new parent
    assert forall|i: int| 0 <= i < n + 1 implies #[trigger] key_at(parent, i) == (if i < idx {
        key_at(op, i)
    } else if i == idx {
        k2
    } else {
        key_at(op, i - 1)
    }) by {
        assert(keys_of(parent)[i] == key_at(parent, i));
    }
    assert(keys_strictly_sorted(parent.cells())) by {
        assert forall|i: int, j: int| 0 <= i < j < n + 1 implies #[trigger] parent.cells()[i].key
            < #[trigger] parent.cells()[j].key by {
            assert(parent.cells()[i].key == key_at(parent, i));
            assert(parent.cells()[j].key == key_at(parent, j));
            if i < idx && j == idx {
                assert(key_at(op, i) <= key_at(op, idx - 1));
            } else if i == idx && j > idx {
                assert(key_at(op, idx) <= key_at(op, j - 1));
            }
        }
    }
    assert forall|i: int| 0 <= i < n_keys(parent) implies within(
        #[trigger] key_at(parent, i),
        g2.lo[pid],
        g2.hi[pid],
    ) by {
        if i < idx {
            assert(within(key_at(op, i), g.lo[pid], g.hi[pid]));
        } else if i > idx {
            assert(within(key_at(op, i - 1), g.lo[pid], g.hi[pid]));
        }
    }
    // children of the new parent
    assert forall|i: int| 0 <= i <= n_keys(parent) implies {
        let c = #[trigger] child_at(parent, i);
        &&& pages2.contains_key(c)
        &&& g2.level.contains_key(c)
        &&& g2.parent.contains_key(c)
        &&& g2.level[c] + 1 == g2.level[pid]
        &&& g2.parent[c] == pid
        &&& g2.lo[c] == child_lo(parent, g2.lo[pid], i)
        &&& g2.hi[c] == child_hi(parent, g2.hi[pid], i)
    } by {
        let c = child_at(parent, i);
        assert(kids_of(parent)[i] == c);
        if i < idx {
            assert(c == child_at(op, i));
            assert(c != x) by {
                lemma_kids_distinct(pages, g, pid, i, idx);
            }
            assert(!moved(ox, c)) by {
                if moved(ox, c) {
                    let j = choose|j: int| 3 <= j <= 5 && #[trigger] child_at(ox, j) == c;
                    assert(g.parent[c] == x);
                }
            }
        } else if i == idx {
            assert(c == x);
            assert(!moved(ox, x)) by {
                if moved(ox, x) {
                    let j = choose|j: int| 3 <= j <= 5 && #[trigger] child_at(ox, j) == x;
                    assert(g.level[x] + 1 == g.level[x]);
                }
            }
        } else if i == idx + 1 {
            assert(c == y);
        } else {
            assert(c == child_at(op, i - 1));
            assert(c != x) by {
                lemma_kids_distinct(pages, g, pid, idx, i - 1);
            }
            assert(!moved(ox, c)) by {
                if moved(ox, c) {
                    let j = choose|j: int| 3 <= j <= 5 && #[trigger] child_at(ox, j) == c;
                    assert(g.parent[c] == x);
                }
            }
        }
    }
}

/// Pages the split does not touch stay in order towards their children.
proof fn lemma_split_other(
    pages: Map<u32, Page>,
    g: Shape,
    root: u32,
    next: u32,
    x: u32,
    y: u32,
    pid: u32,
    idx: int,
    left: Page,
    right: Page,
    parent: Page,
    q: u32,
)
    requires
        split_core(pages, g, root, next, x, y, pid, left, right),
        pages.contains_key(q),
        q != x,
        q != y,
        q != pid,
    ensures
        node_ok(
            split_pages(pages, x, y, pid, left, right, parent),
            split_shape(g, pages[x], x, y, pid),
            q,
        ),
{
    let pages2 = split_pages(pages, x, y, pid, left, right, parent);
    let g2 = split_shape(g, pages[x], x, y, pid);
    let ox = pages[x];
    let p = pages[q];
    assert(node_ok(pages, g, q));
    assert(node_ok(pages, g, x));
    assert(pages2[q] == p);
    assert(!pages.contains_key(y)) by {
        if pages.contains_key(y) {
            assert(y < next);
        }
    }
    if !is_leaf(p) {
        assert forall|i: int| 0 <= i <= n_keys(p) implies {
            let c = #[trigger] child_at(p, i);
            &&& pages2.contains_key(c)
            &&& g2.level.contains_key(c)
            &&& g2.parent.contains_key(c)
            &&& g2.level[c] + 1 == g2.level[q]
            &&& g2.parent[c] == q
            &&& g2.lo[c] == child_lo(p, g2.lo[q], i)
            &&& g2.hi[c] == child_hi(p, g2.hi[q], i)
        } by {
            let c = child_at(p, i);
            assert(pages.contains_key(c));
            assert(c != y);
            assert(c != x) by {
                if c == x {
                    assert(g.parent[x] == q);
                }
            }
            assert(!moved(ox, c)) by {
                if moved(ox, c) {
                    let j = choose|j: int| 3 <= j <= 5 && #[trigger] child_at(ox, j) == c;
                    assert(g.parent[c] == x);
                }
            }
        }
    }
}

/// After the split every page but the root is still a child of its recorded
/// parent, one level below it.
#[verifier::spinoff_prover]
#[verifier::rlimit(40)]
proof fn lemma_split_linked(
    pages: Map<u32, Page>,
    g: Shape,
    root: u32,
    next: u32,
    x: u32,
    y: u32,
    pid: u32,
    idx: int,
    left: Page,
    right: Page,
    parent: Page,
    q: u32,
)
    requires
        split_pre(pages, g, root, next, x, y, pid, idx, left, right, parent),
        split_pages(pages, x, y, pid, left, right, parent).contains_key(q),
        q != root,
    ensures
        ({
            let pages2 = split_pages(pages, x, y, pid, left, right, parent);
            let g2 = split_shape(g, pages[x], x, y, pid);
            &&& g2.level[q] < g2.level[root]
            &&& pages2.contains_key(g2.parent[q])
            &&& !is_leaf(pages2[g2.parent[q]])
            &&& exists|i: int|
                0 <= i <= n_keys(pages2[g2.parent[q]]) && #[trigger] child_at(
                    pages2[g2.parent[q]],
                    i,
                ) == q
        }),
{
    let pages2 = split_pages(pages, x, y, pid, left, right, parent);
    let g2 = split_shape(g, pages[x], x, y, pid);
    let ox = pages[x];
    let op = pages[pid];
    assert(!pages.contains_key(y)) by {
        if pages.contains_key(y) {
            assert(y < next);
        }
    }
    assert(node_ok(pages, g, x));
    assert(node_ok(pages, g, pid));
    assert(x != pid);
    assert(root != y);
    assert(g2.level[root] == g.level[root]);
    lemma_views(op);
    lemma_views(parent);
    assert(g.level[x] < g.level[root]);
    if q == y {
        assert(g2.parent[q] == pid);
        assert(kids_of(parent)[idx + 1] == y);
        assert(child_at(pages2[pid], idx + 1) == q);
        assert(g2.level[q] < g2.level[root]);
        assert(pages2.contains_key(g2.parent[q]));
        assert(!is_leaf(pages2[g2.parent[q]]));
    } else if moved(ox, q) {
        let j = choose|j: int| 3 <= j <= 5 && #[trigger] child_at(ox, j) == q;
        assert(g2.parent[q] == y);
        assert(g.level[q] + 1 == g.level[x]);
        assert(pages2[y] == right);
        assert(child_at(right, j - 3) == q);
        assert(child_at(pages2[g2.parent[q]], j - 3) == q);
        assert(g2.level[q] < g2.level[root]);
        assert(pages2.contains_key(g2.parent[q]));
        assert(!is_leaf(pages2[g2.parent[q]]));
    } else {
        assert(pages.contains_key(q));
        assert(g2.parent[q] == g.parent[q]);
        let pp = g.parent[q];
        assert(g.level[q] < g.level[root]);
        assert(pages.contains_key(pp));
        let i = choose|i: int| 0 <= i <= n_keys(pages[pp]) && #[trigger] child_at(pages[pp], i) == q;
        assert(child_at(pages[pp], i) == q);
        if pp == x {
            assert(i <= 2) by {
                if i >= 3 {
                    assert(moved(ox, q));
                }
            }
            assert(child_at(left, i) == q);
        } else if pp == pid {
            assert(kids_of(op)[i] == q);
            if i < idx {
                assert(kids_of(parent)[i] == q);
                assert(child_at(parent, i) == q);
            } else if i == idx {
                assert(q == x);
                assert(kids_of(parent)[idx] == x);
                assert(child_at(parent, idx) == q);
            } else {
                assert(kids_of(parent)[i + 1] == q);
                assert(child_at(parent, i + 1) == q);
            }
        } else {
            assert(pp != y);
            assert(pages2[pp] == pages[pp]);
        }
    }
}

/// The split moves keys between pages without adding or losing any.
proof fn lemma_split_keys(
    pages: Map<u32, Page>,
    x: u32,
    y: u32,
    pid: u32,
    idx: int,
    left: Page,
    right: Page,
    parent: Page,
    old_keys: Seq<i64>,
)
    requires
        pages.contains_key(x),
        !pages.contains_key(y),
        x != pid,
        y != pid,
        n_keys(pages[x]) == 5,
        left.cells() == pages[x].cells().subrange(0, 2),
        right.cells() == pages[x].cells().subrange(3, 5),
        pages.contains_key(pid) ==> old_keys == keys_of(pages[pid]),
        !pages.contains_key(pid) ==> old_keys.len() == 0,
        0 <= idx <= old_keys.len(),
        keys_of(parent) == old_keys.insert(idx, key_at(pages[x], 2)),
    ensures
        all_keys(split_pages(pages, x, y, pid, left, right, parent)) == all_keys(pages),
{
    let pages2 = split_pages(pages, x, y, pid, left, right, parent);
    let ox = pages[x];
    lemma_views(parent);
    if pages.contains_key(pid) {
        lemma_views(pages[pid]);
    }
    assert forall|k: i64| all_keys(pages2).contains(k) implies all_keys(pages).contains(k) by {
        let q = choose|q: u32| #[trigger] pages2.contains_key(q) && page_keys(pages2[q]).contains(k);
        let i = choose|i: int| 0 <= i < n_keys(pages2[q]) && key_at(pages2[q], i) == k;
        if q == pid {
            assert(keys_of(parent)[i] == k);
            if i < idx {
                assert(old_keys[i] == k);
                assert(page_keys(pages[pid]).contains(k));
            } else if i == idx {
                assert(page_keys(ox).contains(k));
            } else {
                assert(old_keys[i - 1] == k);
                assert(page_keys(pages[pid]).contains(k));
            }
        } else if q == y {
            assert(key_at(ox, i + 3) == k);
            assert(page_keys(ox).contains(k));
        } else if q == x {
            assert(key_at(ox, i) == k);
            assert(page_keys(ox).contains(k));
        } else {
            assert(page_keys(pages[q]).contains(k));
        }
    }
    assert forall|k: i64| all_keys(pages).contains(k) implies all_keys(pages2).contains(k) by {
        let q = choose|q: u32| #[trigger] pages.contains_key(q) && page_keys(pages[q]).contains(k);
        let i = choose|i: int| 0 <= i < n_keys(pages[q]) && key_at(pages[q], i) == k;
        if q == x {
            if i < 2 {
                assert(key_at(left, i) == k);
                assert(page_keys(pages2[x]).contains(k));
                assert(pages2.contains_key(x));
            } else if i == 2 {
                assert(keys_of(parent)[idx] == k);
                assert(key_at(parent, idx) == k);
                assert(page_keys(pages2[pid]).contains(k));
                assert(pages2.contains_key(pid));
            } else {
                assert(key_at(right, i - 3) == k);
                assert(page_keys(pages2[y]).contains(k));
                assert(pages2.contains_key(y));
            }
        } else if q == pid {
            if i < idx {
                assert(keys_of(parent)[i] == k);
                assert(key_at(parent, i) == k);
            } else {
                assert(keys_of(parent)[i + 1] == k);
                assert(key_at(parent, i + 1) == k);
            }
            assert(page_keys(pages2[pid]).contains(k));
            assert(pages2.contains_key(pid));
        } else {
            assert(pages2[q] == pages[q]);
            assert(page_keys(pages2[q]).contains(k));
            assert(pages2.contains_key(q));
        }
    }
    assert(all_keys(pages2) =~= all_keys(pages));
}

/// Splitting a page that has a parent leaves a tree whose only page with too
/// many keys may be the parent, with the same keys and the same levels and
/// parents along the path above the split page.
#[verifier::rlimit(80)]
#[verifier::spinoff_prover]
proof fn lemma_split(
    pages: Map<u32, Page>,
    g: Shape,
    root: u32,
    next: u32,
    x: u32,
    y: u32,
    pid: u32,
    idx: int,
    left: Page,
    right: Page,
    parent: Page,
)
    requires
        split_pre(pages, g, root, next, x, y, pid, idx, left, right, parent),
        next < u32::MAX,
    ensures
        ({
            let pages2 = split_pages(pages, x, y, pid, left, right, parent);
            let g2 = split_shape(g, pages[x], x, y, pid);
            &&& tree_ok(pages2, g2, root, (next + 1) as u32, Some(pid), n_keys(parent))
            &&& n_keys(parent) <= 2 * DEGREE - 2 ==> tree_ok(
                pages2,
                g2,
                root,
                (next + 1) as u32,
                None,
                0,
            )
            &&& all_keys(pages2) == all_keys(pages)
            &&& g2.level[root] == g.level[root]
            &&& forall|q: u32|
                pages.contains_key(q) && q != root && g.level[q] > g.level[x] ==> g2.parent[q]
                    == g.parent[q] && g2.level[q] == g.level[q]
            &&& n_keys(parent) == n_keys(pages[pid]) + 1
        }),
{
    let pages2 = split_pages(pages, x, y, pid, left, right, parent);
    let g2 = split_shape(g, pages[x], x, y, pid);
    let ox = pages[x];
    let op = pages[pid];
    assert(!pages.contains_key(y)) by {
        if pages.contains_key(y) {
            assert(y < next);
        }
    }
    assert(pages.contains_key(root));
    assert(root != y);
    lemma_views(op);
    lemma_views(parent);
    assert(n_keys(parent) == n_keys(op) + 1);
    assert(node_ok(pages, g, x));
    assert forall|q: u32| #[trigger] pages2.contains_key(q) implies node_ok(pages2, g2, q) by {
        if q == x {
            lemma_split_left(pages, g, root, next, x, y, pid, idx, left, right, parent);
        } else if q == y {
            lemma_split_right(pages, g, root, next, x, y, pid, idx, left, right, parent);
        } else if q == pid {
            lemma_split_parent(pages, g, root, next, x, y, pid, idx, left, right, parent);
        } else {
            lemma_split_other(pages, g, root, next, x, y, pid, idx, left, right, parent, q);
        }
    }
    assert forall|q: u32| #[trigger] pages2.contains_key(q) && q != root implies {
        &&& g2.level[q] < g2.level[root]
        &&& pages2.contains_key(g2.parent[q])
        &&& !is_leaf(pages2[g2.parent[q]])
        &&& exists|i: int|
            0 <= i <= n_keys(pages2[g2.parent[q]]) && #[trigger] child_at(pages2[g2.parent[q]], i)
                == q
    } by {
        lemma_split_linked(pages, g, root, next, x, y, pid, idx, left, right, parent, q);
    }
    assert(shape_ok(pages2, g2, root));
    assert forall|q: u32| #[trigger] pages2.contains_key(q) implies (if Some(pid) == Some(q) {
        n_keys(pages2[q]) == n_keys(parent)
    } else {
        occupancy_ok(pages2, g2, root, q)
    }) && (n_keys(parent) <= 2 * DEGREE - 2 ==> occupancy_ok(pages2, g2, root, q)) && 1 <= q < next
        + 1 by {
        if q == x || q == y {
        } else if q == pid {
            assert(occupancy_ok(pages, g, root, pid));
        } else {
            assert(occupancy_ok(pages, g, root, q));
        }
    }
    lemma_split_keys(pages, x, y, pid, idx, left, right, parent, keys_of(op));
    assert(tree_ok(pages2, g2, root, (next + 1) as u32, Some(pid), n_keys(parent)));
    assert(n_keys(parent) <= 2 * DEGREE - 2 ==> tree_ok(pages2, g2, root, (next + 1) as u32, None, 0));
    assert(g2.level[root] == g.level[root]);
    assert forall|q: u32|
        pages.contains_key(q) && q != root && g.level[q] > g.level[x] implies g2.parent[q]
            == g.parent[q] && g2.level[q] == g.level[q] by {
        lemma_split_upper(pages, g, root, next, x, y, pid, left, right, q);
    }
}

/// The split changes neither the level nor the parent of any page above the
/// split page.
proof fn lemma_split_upper(
    pages: Map<u32, Page>,
    g: Shape,
    root: u32,
    next: u32,
    x: u32,
    y: u32,
    pid: u32,
    left: Page,
    right: Page,
    q: u32,
)
    requires
        split_core(pages, g, root, next, x, y, pid, left, right),
        pages.contains_key(q),
        q != root,
        g.level[q] > g.level[x],
    ensures
        split_shape(g, pages[x], x, y, pid).parent[q] == g.parent[q],
        split_shape(g, pages[x], x, y, pid).level[q] == g.level[q],
{
    let ox = pages[x];
    assert(q != y) by {
        if q == y {
            assert(y < next);
        }
    }
    let pp = g.parent[q];
    assert(pages.contains_key(pp));
    let i = choose|i: int| 0 <= i <= n_keys(pages[pp]) && #[trigger] child_at(pages[pp], i) == q;
    assert(node_ok(pages, g, pp));
    assert(child_at(pages[pp], i) == q);
    assert(g.parent.contains_key(q));
    assert(node_ok(pages, g, x));
    if moved(ox, q) {
        let j = choose|j: int| 3 <= j <= 5 && #[trigger] child_at(ox, j) == q;
        assert(g.level[q] + 1 == g.level[x]);
    }
}

/// The ghost bookkeeping of a new root `z` placed above the old root `x`.
pub open spec fn root_shape(g: Shape, x: u32, z: u32) -> Shape {
    Shape {
        level: g.level.insert(z, g.level[x] + 1),
        parent: g.parent.insert(x, z),
        lo: g.lo.insert(z, None),
        hi: g.hi.insert(z, None),
    }
}

/// Adding entries for a page id that is not in the tree, and a parent for
/// the root, changes nothing of what the pages must satisfy.
proof fn lemma_root_shape(pages: Map<u32, Page>, g: Shape, x: u32, next: u32, z: u32)
    requires
        tree_ok(pages, g, x, next, Some(x), 2 * DEGREE - 1),
        !pages.contains_key(z),
    ensures
        tree_ok(pages, root_shape(g, x, z), x, next, Some(x), 2 * DEGREE - 1),
{
    let g0 = root_shape(g, x, z);
    assert forall|q: u32| #[trigger] pages.contains_key(q) implies node_ok(pages, g0, q) by {
        assert(node_ok(pages, g, q));
        let p = pages[q];
        if !is_leaf(p) {
            assert forall|i: int| 0 <= i <= n_keys(p) implies {
                let c = #[trigger] child_at(p, i);
                &&& pages.contains_key(c)
                &&& g0.level.contains_key(c)
                &&& g0.parent.contains_key(c)
                &&& g0.level[c] + 1 == g0.level[q]
                &&& g0.parent[c] == q
                &&& g0.lo[c] == child_lo(p, g0.lo[q], i)
                &&& g0.hi[c] == child_hi(p, g0.hi[q], i)
            } by {
                let c = child_at(p, i);
                assert(c != z);
                assert(c != x) by {
                    if c == x {
                        assert(node_ok(pages, g, x));
                        if q != x {
                            assert(g.level[q] < g.level[x]);
                        }
                    }
                }
            }
        }
    }
    assert forall|q: u32| #[trigger] pages.contains_key(q) && q != x implies {
        &&& g0.level[q] < g0.level[x]
        &&& pages.contains_key(g0.parent[q])
        &&& !is_leaf(pages[g0.parent[q]])
        &&& exists|i: int|
            0 <= i <= n_keys(pages[g0.parent[q]]) && #[trigger] child_at(pages[g0.parent[q]], i)
                == q
    } by {
        assert(q != z);
    }
}

/// Splitting the root puts a new root with one key above the two halves.
#[verifier::rlimit(80)]
#[verifier::spinoff_prover]
proof fn lemma_root_split(
    pages: Map<u32, Page>,
    g: Shape,
    x: u32,
    next: u32,
    y: u32,
    z: u32,
    left: Page,
    right: Page,
    zp: Page,
)
    requires
        split_core(pages, root_shape(g, x, z), x, next, x, y, z, left, right),
        tree_ok(pages, g, x, next, Some(x), 2 * DEGREE - 1),
        z == next + 1,
        next + 1 < u32::MAX,
        zp.wf(),
        compact(zp),
        !is_leaf(zp),
        keys_of(zp) == seq![key_at(pages[x], 2)],
        kids_of(zp) == seq![x, y],
    ensures
        ({
            let g2 = split_shape(root_shape(g, x, z), pages[x], x, y, z);
            let pages2 = split_pages(pages, x, y, z, left, right, zp);
            &&& tree_ok(pages2, g2, z, (next + 2) as u32, None, 0)
            &&& all_keys(pages2) == all_keys(pages)
            &&& g2.level[z] == g.level[x] + 1
        }),
{
    let g0 = root_shape(g, x, z);
    let g2 = split_shape(g0, pages[x], x, y, z);
    let pages2 = split_pages(pages, x, y, z, left, right, zp);
    let ox = pages[x];
    assert(!pages.contains_key(y)) by {
        if pages.contains_key(y) {
            assert(y < next);
        }
    }
    assert(!pages.contains_key(z)) by {
        if pages.contains_key(z) {
            assert(z < next);
        }
    }
    lemma_views(zp);
    assert(n_keys(zp) == 1);
    assert(node_ok(pages, g, x));
    let k2 = key_at(ox, 2);
    // the new root
    assert(node_ok(pages2, g2, z)) by {
        assert(pages2[z] == zp);
        assert(keys_of(zp)[0] == k2);
        assert(key_at(zp, 0) == k2);
        assert(keys_strictly_sorted(zp.cells()));
        assert(!moved(ox, x)) by {
            if moved(ox, x) {
                let j = choose|j: int| 3 <= j <= 5 && #[trigger] child_at(ox, j) == x;
                assert(g.level[x] + 1 == g.level[x]);
            }
        }
        assert(child_at(zp, 0) == x);
        assert(child_at(zp, 1) == y);
        assert forall|i: int| 0 <= i <= n_keys(zp) implies {
            let c = #[trigger] child_at(zp, i);
            &&& pages2.contains_key(c)
            &&& g2.level.contains_key(c)
            &&& g2.parent.contains_key(c)
            &&& g2.level[c] + 1 == g2.level[z]
            &&& g2.parent[c] == z
            &&& g2.lo[c] == child_lo(zp, g2.lo[z], i)
            &&& g2.hi[c] == child_hi(zp, g2.hi[z], i)
        } by {
            assert(kids_of(zp)[i] == child_at(zp, i));
            if i == 0 {
                assert(child_at(zp, i) == x);
            } else {
                assert(child_at(zp, i) == y);
            }
        }
    }
    assert forall|q: u32| #[trigger] pages2.contains_key(q) implies node_ok(pages2, g2, q) by {
        if q == x {
            lemma_split_left(pages, g0, x, next, x, y, z, 0, left, right, zp);
        } else if q == y {
            lemma_split_right(pages, g0, x, next, x, y, z, 0, left, right, zp);
        } else if q != z {
            lemma_split_other(pages, g0, x, next, x, y, z, 0, left, right, zp, q);
        }
    }
    assert forall|q: u32| #[trigger] pages2.contains_key(q) && q != z implies {
        &&& g2.level[q] < g2.level[z]
        &&& pages2.contains_key(g2.parent[q])
        &&& !is_leaf(pages2[g2.parent[q]])
        &&& exists|i: int|
            0 <= i <= n_keys(pages2[g2.parent[q]]) && #[trigger] child_at(pages2[g2.parent[q]], i)
                == q
    } by {
        if q == x {
            assert(child_at(pages2[z], 0) == x);
            assert(!moved(ox, x)) by {
                if moved(ox, x) {
                    let j = choose|j: int| 3 <= j <= 5 && #[trigger] child_at(ox, j) == x;
                    assert(g.level[x] + 1 == g.level[x]);
                }
            }
        } else if q == y {
            assert(child_at(pages2[z], 1) == y);
        } else if moved(ox, q) {
            let j = choose|j: int| 3 <= j <= 5 && #[trigger] child_at(ox, j) == q;
            assert(g.level[q] + 1 == g.level[x]);
            assert(pages2[y] == right);
            assert(child_at(right, j - 3) == q);
            assert(child_at(pages2[g2.parent[q]], j - 3) == q);
        } else {
            assert(pages.contains_key(q));
            assert(g.level[q] < g.level[x]);
            let pp = g.parent[q];
            assert(pages.contains_key(pp));
            let i = choose|i: int| 0 <= i <= n_keys(pages[pp]) && #[trigger] child_at(pages[pp], i)
                == q;
            assert(child_at(pages[pp], i) == q);
            assert(node_ok(pages, g, pp));
            assert(g.parent.contains_key(q));
            assert(g2.parent[q] == pp);
            if pp == x {
                assert(i <= 2) by {
                    if i >= 3 {
                        assert(moved(ox, q));
                    }
                }
                assert(child_at(left, i) == q);
            } else {
                assert(pp != y && pp != z);
                assert(pages2[pp] == pages[pp]);
            }
        }
    }
    assert(shape_ok(pages2, g2, z));
    assert forall|q: u32| #[trigger] pages2.contains_key(q) implies occupancy_ok(pages2, g2, z, q) && 1
        <= q < next + 2 by {
        if q != x && q != y && q != z {
            assert(occupancy_ok(pages, g, x, q));
        }
    }
    assert(Seq::<i64>::empty().insert(0, k2) =~= seq![k2]);
    lemma_split_keys(pages, x, y, z, 0, left, right, zp, Seq::<i64>::empty());
}

/// Cells read from a well-formed page are kind-consistent, so filling a page
/// of the same kind with a sorted run of them gives them back.
proof fn lemma_refill(cells: Seq<Cell>, k: PageKind)
    requires
        kind_consistent(cells, k),
        keys_strictly_sorted(cells),
    ensures
        filled(cells, k) == cells,
{
    lemma_filled_sorted(cells, k);
    assert(cells.map_values(|c: Cell| cell_as(c, k)) =~= cells);
}

impl Btree {
    /// Rebuilds page `x` (five cells) with its first two cells and puts its
    /// last two into a newly allocated page; returns the middle key, the new
    /// page's id and whether the page is a leaf (its cells have no child
    /// pointers).
    fn split_page(&mut self, x: u32) -> (r: (i64, u32, bool))
        requires
            old(self).pager.pages().contains_key(x),
            old(self).pager.pages()[x].wf(),
            n_keys(old(self).pager.pages()[x]) == 2 * DEGREE - 1,
            keys_strictly_sorted(old(self).pager.pages()[x].cells()),
            x < old(self).pager.next() < u32::MAX,
        ensures
            ({
                let ox = old(self).pager.pages()[x];
                let pages = final(self).pager.pages();
                let (k2, y, no_child) = r;
                let left = pages[x];
                let right = pages[y];
                &&& k2 == key_at(ox, 2)
                &&& no_child == is_leaf(ox)
                &&& y == old(self).pager.next()
                &&& final(self).pager.next() == old(self).pager.next() + 1
                &&& pages == old(self).pager.pages().insert(x, left).insert(y, right)
                &&& left.wf()
                &&& compact(left)
                &&& left.hdr().page_ty == ox.hdr().page_ty
                &&& left.cells() == ox.cells().subrange(0, 2)
                &&& !is_leaf(ox) ==> left.hdr().rightmost_ptr == child_at(ox, 2)
                &&& right.wf()
                &&& compact(right)
                &&& right.hdr().page_ty == ox.hdr().page_ty
                &&& right.cells() == ox.cells().subrange(3, 5)
                &&& !is_leaf(ox) ==> right.hdr().rightmost_ptr == ox.hdr().rightmost_ptr
            }),
            final(self).root_id == old(self).root_id,
            final(self).shape == old(self).shape,
    {
        let ghost pages0 = self.pager.pages();
        let ghost ox = pages0[x];
        let (current_hdr, current_cells) = {
            let page = self.pager.fetch(x);
            proof {
                page.lemma_view();
            }
            (page.header().unwrap(), page.get_cells().unwrap())
        };
        let n = current_cells.len();
        let split = n / 2;
        let no_child = current_cells[0].c_ptr.is_none();
        let left_cells = slice_subrange(current_cells.as_slice(), 0, split);
        let right_cells = slice_subrange(current_cells.as_slice(), split + 1, n);
        let promoted_key = current_cells[split].key;
        let left_rightmost = if no_child {
            0
        } else {
            current_cells[split].c_ptr.unwrap()
        };
        proof {
            let cs = current_cells@;
            let k = current_hdr.page_ty;
            assert(kind_consistent(cs, k));
            assert(no_child == (k == PageKind::Leaf));
            assert(left_cells@ =~= cs.subrange(0, 2));
            assert(right_cells@ =~= cs.subrange(3, 5));
            assert(kind_consistent(left_cells@, k));
            assert(kind_consistent(right_cells@, k));
            lemma_refill(left_cells@, k);
            lemma_refill(right_cells@, k);
            if k != PageKind::Leaf {
                assert(child_at(ox, 2) == left_rightmost);
            }
        }
        let mut page = self.pager.take(x);
        let _ = page.reset_and_fill(x, current_hdr.page_ty, left_rightmost, left_cells);
        self.pager.put(x, page);
        let right_page_id = self.pager.allocate();
        let right_rightmost = if no_child {
            0
        } else {
            current_hdr.rightmost_ptr
        };
        let mut rpage = self.pager.take(right_page_id);
        let _ = rpage.reset_and_fill(right_page_id, current_hdr.page_ty, right_rightmost, right_cells);
        self.pager.put(right_page_id, rpage);
        proof {
            let pages = self.pager.pages();
            assert(pages =~= pages0.insert(x, pages[x]).insert(right_page_id, pages[right_page_id]));
        }
        (promoted_key, right_page_id, no_child)
    }
}


/// A parent page that is ready to take the middle key `k2` of a split of its
/// child `idx`, which is page `x`.
pub open spec fn parent_ready(op: Page, x: u32, k2: i64, idx: int) -> bool {
    &&& op.wf()
    &&& compact(op)
    &&& !is_leaf(op)
    &&& keys_strictly_sorted(op.cells())
    &&& n_keys(op) <= 2 * DEGREE - 2
    &&& 0 <= idx <= n_keys(op)
    &&& child_at(op, idx) == x
    &&& forall|i: int| 0 <= i <= n_keys(op) && i != idx ==> #[trigger] child_at(op, i) != x
    &&& idx > 0 ==> key_at(op, idx - 1) < k2
    &&& idx < n_keys(op) ==> k2 < key_at(op, idx)
}

/// Re-reading kind-consistent cells as a page kind on the same side of the
/// leaf / non-leaf divide changes nothing.
proof fn lemma_retype(cells: Seq<Cell>, k: PageKind, ty: PageKind)
    requires
        kind_consistent(cells, k),
        (ty == PageKind::Leaf) == (k == PageKind::Leaf),
    ensures
        cells.map_values(|c: Cell| cell_as(c, ty)) == cells,
{
    assert(cells.map_values(|c: Cell| cell_as(c, ty)) =~= cells);
}

/// The index of the first cell whose child pointer is `x`.
fn position_of_child(cells: &Vec<Cell>, x: u32) -> (r: Option<usize>)
    ensures
        match r {
            Some(i) => i < cells@.len() && cells@[i as int].c_ptr == Some(x) && forall|j: int|
                0 <= j < i ==> #[trigger] cells@[j].c_ptr != Some(x),
            None => forall|j: int| 0 <= j < cells@.len() ==> #[trigger] cells@[j].c_ptr != Some(x),
        },
{
    let n = cells.len();
    let mut i: usize = 0;
    while i < n
        invariant
            i <= n,
            n == cells@.len(),
            forall|j: int| 0 <= j < i ==> #[trigger] cells@[j].c_ptr != Some(x),
        decreases n - i,
    {
        match cells[i].c_ptr {
            Some(c) => {
                if c == x {
                    return Some(i);
                }
            },
            None => {},
        }
        i = i + 1;
    }
    None
}

impl Btree {
    /// Puts the middle key `k2` of a split into the parent page `pid`, with
    /// the lower half `x` as the child to its left and the upper half `y` as
    /// the child to its right; returns the parent's key count afterwards.
    #[verifier::rlimit(40)]
    #[verifier::spinoff_prover]
    fn attach_split(&mut self, pid: u32, x: u32, y: u32, k2: i64, Ghost(idx): Ghost<int>) -> (r: Result<usize, BtreeError>)
        requires
            old(self).pager.pages().contains_key(pid),
            parent_ready(old(self).pager.pages()[pid], x, k2, idx),
        ensures
            ({
                let op = old(self).pager.pages()[pid];
                let np = final(self).pager.pages()[pid];
                &&& r == Ok::<usize, BtreeError>((n_keys(op) + 1) as usize)
                &&& final(self).pager.pages() == old(self).pager.pages().insert(pid, np)
                &&& final(self).pager.next() == old(self).pager.next()
                &&& np.wf()
                &&& compact(np)
                &&& np.hdr().page_ty == op.hdr().page_ty
                &&& keys_of(np) == keys_of(op).insert(idx, k2)
                &&& kids_of(np) == kids_of(op).update(idx, y).insert(idx, x)
            }),
            final(self).root_id == old(self).root_id,
            final(self).shape == old(self).shape,
    {
        let ghost pages0 = self.pager.pages();
        let ghost op = pages0[pid];
        let mut page = self.pager.take(pid);
        proof {
            page.lemma_view();
        }
        let hdr = match page.header() {
            Ok(h) => h,
            Err(e) => {
                return Err(e);
            },
        };
        if hdr.rightmost_ptr == x {
            let _ = page.set_rightmost_ptr(y);
            proof {
                assert(idx == n_keys(op)) by {
                    if idx < n_keys(op) {
                        assert(child_at(op, n_keys(op)) == x);
                    }
                }
            }
        } else {
            let cells = match page.get_cells() {
                Ok(c) => c,
                Err(e) => {
                    return Err(e);
                },
            };
            let pos = match position_of_child(&cells, x) {
                Some(i) => i,
                None => {
                    proof {
                        assert(idx < n_keys(op));
                        assert(cells@[idx].c_ptr == Some(x));
                    }
                    return Err(BtreeError::ParentMissingChild);
                },
            };
            proof {
                assert(child_at(op, pos as int) == x);
                assert(pos == idx);
            }
            let _ = page.set_child_ptr_at(pos, y);
        }
        let ghost mid = page;
        proof {
            mid.lemma_view();
        }
        let enc = crate::trees::page::cell_encoding(&Cell { key: k2, c_ptr: Some(x) });
        proof {
            lemma_cell_bytes_roundtrip(Cell { key: k2, c_ptr: Some(x) }, mid.hdr().page_ty);
            assert(keys_sorted(mid.cells()));
            assert forall|i: int| 0 <= i < idx implies #[trigger] mid.cells()[i].key < k2 by {
                assert(mid.cells()[i].key == key_at(op, i));
                if i < idx - 1 {
                    assert(key_at(op, i) < key_at(op, idx - 1));
                }
            }
            assert forall|i: int| idx <= i < mid.cells().len() implies #[trigger] mid.cells()[i].key
                >= k2 by {
                assert(mid.cells()[i].key == key_at(op, i));
                if i > idx {
                    assert(key_at(op, idx) < key_at(op, i));
                }
            }
            lemma_lower_bound_sorted(mid.cells(), k2, 0, mid.cells().len() as int);
            let ip = insert_pos(mid.cells(), k2);
            if ip < idx {
                assert(mid.cells()[ip].key < k2);
            } else if ip > idx {
                assert(mid.cells()[idx].key < k2);
            }
            assert(ip == idx);
        }
        proof {
            page.lemma_header_parses();
        }
        let n_slots = match page.add_cell(enc.as_slice()) {
            Ok(n) => n,
            Err(e) => {
                return Err(e);
            },
        };
        self.pager.put(pid, page);
        proof {
            let np = page;
            let newc = Cell { key: k2, c_ptr: Some(x) };
            assert(np.cells() == mid.cells().insert(idx, newc));
            lemma_views(op);
            lemma_views(np);
            assert(keys_of(np) =~= keys_of(op).insert(idx, k2)) by {
                assert forall|i: int| 0 <= i < n_keys(np) implies #[trigger] keys_of(np)[i]
                    == keys_of(op).insert(idx, k2)[i] by {
                    if i < idx {
                        assert(np.cells()[i] == mid.cells()[i]);
                    } else if i > idx {
                        assert(np.cells()[i] == mid.cells()[i - 1]);
                    }
                }
            }
            assert(kids_of(np) =~= kids_of(op).update(idx, y).insert(idx, x)) by {
                assert forall|i: int| 0 <= i <= n_keys(np) implies #[trigger] kids_of(np)[i]
                    == kids_of(op).update(idx, y).insert(idx, x)[i] by {
                    assert(kids_of(np)[i] == child_at(np, i));
                    if i < idx {
                        assert(np.cells()[i] == mid.cells()[i]);
                        assert(kids_of(op)[i] == child_at(op, i));
                    } else if i == idx {
                    } else if i <= n_keys(op) {
                        assert(np.cells()[i] == mid.cells()[i - 1]);
                        assert(kids_of(op)[i - 1] == child_at(op, i - 1));
                    } else {
                        assert(kids_of(op)[i - 1] == child_at(op, i - 1));
                    }
                }
            }
            assert(self.pager.pages() =~= pages0.insert(pid, np));
        }
        Ok(n_slots)
    }

    /// Puts a new root page above the halves `x` and `y` of a split root,
    /// holding the middle key `k2`, and marks `x` as a leaf or an internal
    /// page; returns the new root's id.
    #[verifier::rlimit(40)]
    #[verifier::spinoff_prover]
    fn new_root_above(&mut self, x: u32, y: u32, k2: i64, leaf: bool) -> (z: u32)
        requires
            old(self).pager.pages().contains_key(x),
            old(self).pager.pages()[x].wf(),
            is_leaf(old(self).pager.pages()[x]) == leaf,
            x < old(self).pager.next() < u32::MAX,
        ensures
            ({
                let pages = final(self).pager.pages();
                let ox = old(self).pager.pages()[x];
                let xp = pages[x];
                let zp = pages[z];
                &&& z == old(self).pager.next()
                &&& final(self).pager.next() == old(self).pager.next() + 1
                &&& pages == old(self).pager.pages().insert(x, xp).insert(z, zp)
                &&& xp.wf()
                &&& xp.cells() == ox.cells()
                &&& xp.hdr().free_end == ox.hdr().free_end
                &&& is_leaf(xp) == leaf
                &&& cell_width(xp.hdr().page_ty) == cell_width(ox.hdr().page_ty)
                &&& xp.hdr().rightmost_ptr == ox.hdr().rightmost_ptr
                &&& zp.wf()
                &&& compact(zp)
                &&& !is_leaf(zp)
                &&& keys_of(zp) == seq![k2]
                &&& kids_of(zp) == seq![x, y]
            }),
            final(self).root_id == old(self).root_id,
            final(self).shape == old(self).shape,
    {
        let ghost pages0 = self.pager.pages();
        let z = self.pager.allocate();
        let mut zpage = self.pager.take(z);
        let empty: Vec<Cell> = Vec::new();
        let _ = zpage.reset_and_fill(z, PageKind::Root, y, empty.as_slice());
        proof {
            assert(empty@.take(0) =~= empty@);
            zpage.lemma_view();
        }
        let enc = crate::trees::page::cell_encoding(&Cell { key: k2, c_ptr: Some(x) });
        proof {
            lemma_cell_bytes_roundtrip(Cell { key: k2, c_ptr: Some(x) }, PageKind::Root);
        }
        proof {
            zpage.lemma_header_parses();
        }
        let _ = zpage.add_cell(enc.as_slice());
        self.pager.put(z, zpage);
        let mut xpage = self.pager.take(x);
        proof {
            xpage.lemma_view();
            lemma_retype(
                xpage.cells(),
                xpage.hdr().page_ty,
                if leaf {
                    PageKind::Leaf
                } else {
                    PageKind::Internal
                },
            );
        }
        let _ = xpage.set_page_ty(
            if leaf {
                PageKind::Leaf
            } else {
                PageKind::Internal
            },
        );
        self.pager.put(x, xpage);
        proof {
            let zp = zpage;
            assert(zp.cells() =~= seq![Cell { key: k2, c_ptr: Some(x) }]);
            lemma_views(zp);
            assert(keys_of(zp) =~= seq![k2]);
            assert(kids_of(zp) =~= seq![x, y]);
            assert(self.pager.pages() =~= pages0.insert(x, xpage).insert(z, zp));
        }
        z
    }
}


/// Every page of the descent `bc` but the last holds as many keys as a page
/// may hold at rest.
pub open spec fn full_above(pages: Map<u32, Page>, bc: Seq<u32>) -> bool {
    forall|i: int| 0 <= i < bc.len() - 1 ==> n_keys(pages[#[trigger] bc[i]]) == 2 * DEGREE - 2
}

/// Adding a key that the tree lacks to the leaf whose bounds contain it
/// keeps the tree in order; only that leaf may end up with too many keys.
#[verifier::rlimit(40)]
proof fn lemma_leaf_insert(pages: Map<u32, Page>, g: Shape, root: u32, next: u32, p: u32, np: Page, val: i64)
    requires
        tree_ok(pages, g, root, next, None, 0),
        pages.contains_key(p),
        is_leaf(pages[p]),
        within(val, g.lo[p], g.hi[p]),
        !all_keys(pages).contains(val),
        np.wf(),
        compact(np),
        is_leaf(np),
        np.cells() == pages[p].cells().insert(
            insert_pos(pages[p].cells(), val),
            Cell { key: val, c_ptr: None },
        ),
    ensures
        tree_ok(pages.insert(p, np), g, root, next, Some(p), n_keys(np)),
        n_keys(np) <= 2 * DEGREE - 2 ==> tree_ok(pages.insert(p, np), g, root, next, None, 0),
        n_keys(np) == n_keys(pages[p]) + 1,
        all_keys(pages.insert(p, np)) == all_keys(pages).insert(val),
{
    let pages2 = pages.insert(p, np);
    let op = pages[p];
    let oc = op.cells();
    let nc = np.cells();
    let ip = insert_pos(oc, val);
    assert(node_ok(pages, g, p));
    assert(keys_sorted(oc));
    lemma_lower_bound_sorted(oc, val, 0, oc.len() as int);
    assert forall|i: int| 0 <= i < oc.len() implies #[trigger] oc[i].key != val by {
        if oc[i].key == val {
            assert(key_at(op, i) == val);
            assert(page_keys(op).contains(val));
        }
    }
    assert(keys_strictly_sorted(nc)) by {
        assert forall|i: int, j: int| 0 <= i < j < nc.len() implies #[trigger] nc[i].key
            < #[trigger] nc[j].key by {
            if j < ip {
                assert(nc[i] == oc[i] && nc[j] == oc[j]);
            } else if j == ip {
                assert(nc[i] == oc[i]);
            } else if i < ip {
                assert(nc[i] == oc[i] && nc[j] == oc[j - 1]);
            } else if i == ip {
                assert(nc[j] == oc[j - 1]);
                assert(oc[j - 1].key >= val);
            } else {
                assert(nc[i] == oc[i - 1] && nc[j] == oc[j - 1]);
            }
        }
    }
    assert(node_ok(pages2, g, p)) by {
        assert forall|i: int| 0 <= i < n_keys(np) implies within(
            #[trigger] key_at(np, i),
            g.lo[p],
            g.hi[p],
        ) by {
            if i < ip {
                assert(nc[i] == oc[i]);
                assert(within(key_at(op, i), g.lo[p], g.hi[p]));
            } else if i > ip {
                assert(nc[i] == oc[i - 1]);
                assert(within(key_at(op, i - 1), g.lo[p], g.hi[p]));
            }
        }
    }
    assert forall|q: u32| #[trigger] pages2.contains_key(q) implies node_ok(pages2, g, q) by {
        if q != p {
            assert(node_ok(pages, g, q));
            assert(pages2[q] == pages[q]);
        }
    }
    assert forall|q: u32| #[trigger] pages2.contains_key(q) && q != root implies {
        &&& g.level[q] < g.level[root]
        &&& pages2.contains_key(g.parent[q])
        &&& !is_leaf(pages2[g.parent[q]])
        &&& exists|i: int|
            0 <= i <= n_keys(pages2[g.parent[q]]) && #[trigger] child_at(pages2[g.parent[q]], i)
                == q
    } by {
        assert(pages.contains_key(q));
        assert(g.parent[q] != p);
        assert(pages2[g.parent[q]] == pages[g.parent[q]]);
    }
    assert(shape_ok(pages2, g, root));
    assert forall|q: u32| #[trigger] pages2.contains_key(q) && q != p implies occupancy_ok(
        pages2,
        g,
        root,
        q,
    ) by {
        assert(pages.contains_key(q));
        assert(occupancy_ok(pages, g, root, q));
    }
    assert(occupancy_ok(pages, g, root, p));
    assert(all_keys(pages2) =~= all_keys(pages).insert(val)) by {
        assert forall|k: i64| all_keys(pages2).contains(k) implies all_keys(pages).insert(val).contains(
            k,
        ) by {
            let q = choose|q: u32| #[trigger] pages2.contains_key(q) && page_keys(pages2[q]).contains(k);
            let i = choose|i: int| 0 <= i < n_keys(pages2[q]) && key_at(pages2[q], i) == k;
            if q == p {
                if i < ip {
                    assert(nc[i] == oc[i]);
                    assert(key_at(op, i) == k);
                    assert(page_keys(op).contains(k));
                } else if i > ip {
                    assert(nc[i] == oc[i - 1]);
                    assert(key_at(op, i - 1) == k);
                    assert(page_keys(op).contains(k));
                }
            } else {
                assert(page_keys(pages[q]).contains(k));
            }
        }
        assert forall|k: i64| all_keys(pages).insert(val).contains(k) implies all_keys(
            pages2,
        ).contains(k) by {
            if k == val {
                assert(key_at(np, ip) == val);
                assert(page_keys(pages2[p]).contains(k));
                assert(pages2.contains_key(p));
            } else {
                let q = choose|q: u32| #[trigger] pages.contains_key(q) && page_keys(pages[q]).contains(k);
                let i = choose|i: int| 0 <= i < n_keys(pages[q]) && key_at(pages[q], i) == k;
                assert(pages2.contains_key(q));
                if q == p {
                    if i < ip {
                        assert(nc[i] == oc[i]);
                        assert(key_at(np, i) == k);
                    } else {
                        assert(nc[i + 1] == oc[i]);
                        assert(key_at(np, i + 1) == k);
                    }
                    assert(page_keys(pages2[q]).contains(k));
                } else {
                    assert(page_keys(pages2[q]).contains(k));
                }
            }
        }
    }
}

impl Btree {
    /// Splits the page at the end of `breadcrumb`, which holds one key too
    /// many: its upper half moves to a new page and its middle key goes up
    /// into the parent, which is split in turn if that gives it one key too
    /// many. Splitting the root puts a new root above it, whose id is
    /// returned (the caller makes it the root).
    #[verifier::rlimit(60)]
    #[verifier::spinoff_prover]
    fn split_up(&mut self, breadcrumb: &mut Vec<u32>) -> (r: Result<Option<u32>, BtreeError>)
        requires
            old(self).overflowing(old(breadcrumb)@),
            old(self).next_page_id() + old(breadcrumb)@.len() < u32::MAX,
        ensures
            r is Ok,
            (r matches Ok(Some(_))) == old(self).path_full(old(breadcrumb)@),
            r matches Ok(Some(z)) ==> {
                &&& final(self).inv_at(z)
                &&& final(self).level_of(z) == old(self).height() + 1
                &&& z + 1 == final(self).next_page_id()
                &&& old(self).next_page_id() + 2 <= final(self).next_page_id()
            },
            r matches Ok(None) ==> final(self).inv() && final(self).height() == old(self).height(),
            final(self).keys() == old(self).keys(),
            final(self).root() == old(self).root(),
            old(self).next_page_id() <= final(self).next_page_id() <= old(self).next_page_id()
                + old(breadcrumb)@.len() + 1,
            final(breadcrumb)@.is_prefix_of(old(breadcrumb)@),
            split_into(
                old(self).pager.pages()[old(breadcrumb)@.last()],
                final(self).pager.pages(),
                old(breadcrumb)@.last(),
                old(self).pager.next(),
            ),
            !old(self).pager.pages().contains_key(old(self).pager.next()),
            forall|id: u32|
                #[trigger] old(self).pager.pages().contains_key(id) && !old(breadcrumb)@.contains(id)
                    ==> final(self).pager.pages().contains_key(id) && final(self).pager.pages()[id]
                    == old(self).pager.pages()[id],
        decreases old(breadcrumb)@.len(),
    {
        let ghost pages = self.pager.pages();
        let ghost g = self.shape@;
        let ghost root = self.root_id;
        let ghost next = self.pager.next();
        let ghost bc = breadcrumb@;
        proof {
            assert(!pages.contains_key(next)) by {
                if pages.contains_key(next) {
                    assert(next < next);
                }
            }
        }
        let x = match breadcrumb.pop() {
            Some(id) => id,
            None => {
                return Err(BtreeError::NoOverflowPage);
            },
        };
        proof {
            assert(x == bc.last());
            assert(bc[bc.len() - 1] == x);
            assert(pages.contains_key(x));
            assert(node_ok(pages, g, x));
        }
        let ghost ox = pages[x];
        let (k2, y, no_child) = self.split_page(x);
        let ghost pages1 = self.pager.pages();
        let ghost left = pages1[x];
        let ghost right = pages1[y];
        match breadcrumb.pop() {
            None => {
                proof {
                    assert(bc.len() == 1);
                    assert(x == root);
                }
                let z = self.new_root_above(x, y, k2, no_child);
                proof {
                    let xp = self.pager.pages()[x];
                    let zp = self.pager.pages()[z];
                    assert(!pages.contains_key(z)) by {
                        if pages.contains_key(z) {
                            assert(z < next);
                        }
                    }
                    lemma_root_shape(pages, g, x, next, z);
                    let g0 = root_shape(g, x, z);
                    assert(split_core(pages, g0, x, next, x, y, z, xp, right));
                    lemma_root_split(pages, g, x, next, y, z, xp, right, zp);
                    assert(self.pager.pages() =~= split_pages(pages, x, y, z, xp, right, zp));
                    assert(breadcrumb@ =~= bc.subrange(0, 0));
                    lemma_keys_subrange(ox, left, 0, DEGREE - 1);
                    lemma_keys_subrange(ox, right, DEGREE as int, 2 * DEGREE - 1);
                    lemma_views(xp);
                    lemma_views(left);
                    assert(keys_of(xp) =~= keys_of(left));
                    assert(y != z);
                }
                self.shape = Ghost(split_shape(root_shape(g, x, z), ox, x, y, z));
                Ok(Some(z))
            },
            Some(pid) => {
                proof {
                    assert(bc.len() >= 2);
                    assert(pid == bc[bc.len() - 2]);
                    assert(g.parent[bc[bc.len() - 2 + 1]] == bc[bc.len() - 2]);
                    assert(g.level[bc[bc.len() - 1]] + (bc.len() - 1) == g.level[root]);
                    assert(x != root);
                    assert(pages.contains_key(pid));
                    assert(node_ok(pages, g, pid));
                    assert(occupancy_ok(pages, g, root, pid));
                    assert(pid != y) by {
                        assert(pid < next);
                    }
                }
                let ghost op = pages[pid];
                let ghost idx = choose|i: int| 0 <= i <= n_keys(op) && #[trigger] child_at(op, i) == x;
                proof {
                    assert(child_at(op, idx) == x);
                    assert(g.lo[x] == child_lo(op, g.lo[pid], idx));
                    assert(g.hi[x] == child_hi(op, g.hi[pid], idx));
                    assert(within(key_at(ox, 2), g.lo[x], g.hi[x]));
                    assert forall|i: int| 0 <= i <= n_keys(op) && i != idx implies #[trigger] child_at(
                        op,
                        i,
                    ) != x by {
                        if i < idx {
                            lemma_kids_distinct(pages, g, pid, i, idx);
                        } else {
                            lemma_kids_distinct(pages, g, pid, idx, i);
                        }
                    }
                    assert(pages1[pid] == op);
                    assert(parent_ready(op, x, k2, idx));
                }
                let n_slots = match self.attach_split(pid, x, y, k2, Ghost(idx)) {
                    Ok(n) => n,
                    Err(e) => {
                        return Err(e);
                    },
                };
                proof {
                    let parent = self.pager.pages()[pid];
                    assert(split_pre(pages, g, root, next, x, y, pid, idx, left, right, parent));
                    lemma_split(pages, g, root, next, x, y, pid, idx, left, right, parent);
                    assert(self.pager.pages() =~= split_pages(pages, x, y, pid, left, right, parent));
                    lemma_keys_subrange(ox, left, 0, DEGREE - 1);
                    lemma_keys_subrange(ox, right, DEGREE as int, 2 * DEGREE - 1);
                    assert(g.level[x] + 1 == g.level[pid]);
                }
                self.shape = Ghost(split_shape(g, ox, x, y, pid));
                if n_slots >= 2 * DEGREE - 1 {
                    let ghost pages2 = self.pager.pages();
                    let ghost g2 = self.shape@;
                    breadcrumb.push(pid);
                    proof {
                        let bc2 = breadcrumb@;
                        assert(bc2 =~= bc.drop_last());
                        assert forall|i: int| 0 <= i < bc2.len() implies pages2.contains_key(
                            #[trigger] bc2[i],
                        ) && g2.level[bc2[i]] + i == g2.level[root] by {
                            assert(bc2[i] == bc[i]);
                            assert(g.level[bc[i]] + i == g.level[root]);
                            if i > 0 {
                                assert(bc[i] != root);
                                assert(g.level[bc[i]] > g.level[x]);
                            }
                        }
                        assert forall|i: int| 0 <= i < bc2.len() - 1 implies g2.parent[
                            #[trigger] bc2[i + 1]] == bc2[i] by {
                            assert(bc2[i + 1] == bc[i + 1]);
                            assert(g.level[bc[i + 1]] + i + 1 == g.level[root]);
                            assert(bc[i + 1] != root);
                        }
                        assert(is_path(pages2, g2, root, bc2));
                        assert(bc2.last() == pid);
                        assert(full_above(pages2, bc2) == full_above(pages, bc)) by {
                            assert forall|i: int| 0 <= i < bc2.len() - 1 implies pages2[
                                #[trigger] bc2[i]] == pages[bc[i]] by {
                                assert(bc2[i] == bc[i]);
                                assert(g.level[bc[i]] + i == g.level[root]);
                                assert(bc[i] != pid);
                                assert(bc[i] != x);
                                assert(bc[i] != y) by {
                                    assert(bc[i] < next);
                                }
                            }
                            if full_above(pages2, bc2) {
                                assert forall|i: int| 0 <= i < bc.len() - 1 implies n_keys(
                                    pages[#[trigger] bc[i]],
                                ) == 2 * DEGREE - 2 by {
                                    if i < bc2.len() - 1 {
                                        assert(pages2[bc2[i]] == pages[bc[i]]);
                                    }
                                }
                            }
                            if full_above(pages, bc) {
                                assert forall|i: int| 0 <= i < bc2.len() - 1 implies n_keys(
                                    pages2[#[trigger] bc2[i]],
                                ) == 2 * DEGREE - 2 by {
                                    assert(pages2[bc2[i]] == pages[bc[i]]);
                                }
                            }
                        }
                    }
                    let r = self.split_up(breadcrumb);
                    proof {
                        assert(breadcrumb@.is_prefix_of(bc));
                        let bc2 = bc.drop_last();
                        assert(pages2.contains_key(x) && pages2.contains_key(y));
                        assert(!bc2.contains(x)) by {
                            if bc2.contains(x) {
                                let i = choose|i: int| 0 <= i < bc2.len() && bc2[i] == x;
                                assert(bc[i] == x);
                                assert(g.level[bc[i]] + i == g.level[root]);
                            }
                        }
                        assert(!bc2.contains(y)) by {
                            if bc2.contains(y) {
                                let i = choose|i: int| 0 <= i < bc2.len() && bc2[i] == y;
                                assert(bc[i] == y);
                                assert(pages.contains_key(bc[i]));
                            }
                        }
                        assert forall|id: u32|
                            #[trigger] pages.contains_key(id) && !bc.contains(id) implies self.pager.pages().contains_key(id)
                                && self.pager.pages()[id] == pages[id] by {
                            assert(id != x && id != pid);
                            assert(id != y);
                            assert(pages2.contains_key(id));
                            assert(!bc2.contains(id)) by {
                                if bc2.contains(id) {
                                    let i = choose|i: int| 0 <= i < bc2.len() && bc2[i] == id;
                                    assert(bc[i] == id);
                                }
                            }
                        }
                    }
                    r
                } else {
                    proof {
                        assert(n_keys(pages[bc[bc.len() - 2]]) != 2 * DEGREE - 2);
                        assert(!full_above(pages, bc));
                        assert(breadcrumb@ =~= bc.subrange(0, bc.len() - 2));
                    }
                    Ok(None)
                }
            },
        }
    }

    /// Splits the page at the end of `breadcrumb`, which holds one key too
    /// many: its upper half moves to a new page and its middle key goes up
    /// into the parent, which is split in turn if that gives it one key too
    /// many. Splitting the root puts a new root above it, whose id is
    /// returned (the caller makes it the root). An empty `breadcrumb` is
    /// answered with an error and changes nothing.
    fn handle_overflow(&mut self, breadcrumb: &mut Vec<u32>) -> (r: Result<Option<u32>, BtreeError>)
        requires
            old(breadcrumb)@.len() == 0 || old(self).overflowing(old(breadcrumb)@),
            old(breadcrumb)@.len() > 0 ==> old(self).next_page_id() + old(breadcrumb)@.len() < u32::MAX,
        ensures
            old(breadcrumb)@.len() == 0 ==> {
                &&& r == Err::<Option<u32>, BtreeError>(BtreeError::NoOverflowPage)
                &&& *final(self) == *old(self)
                &&& final(breadcrumb)@ == old(breadcrumb)@
            },
            old(breadcrumb)@.len() > 0 ==> {
                &&& r is Ok
                &&& (r matches Ok(Some(_))) == old(self).path_full(old(breadcrumb)@)
                &&& r matches Ok(Some(z)) ==> {
                    &&& final(self).inv_at(z)
                    &&& final(self).level_of(z) == old(self).height() + 1
                    &&& z + 1 == final(self).next_page_id()
                    &&& z >= old(self).next_page_id()
                }
                &&& r matches Ok(None) ==> final(self).inv() && final(self).height() == old(
                    self,
                ).height()
                &&& final(self).keys() == old(self).keys()
                &&& final(self).root() == old(self).root()
                &&& old(self).next_page_id() <= final(self).next_page_id() <= old(
                    self,
                ).next_page_id() + old(breadcrumb)@.len() + 1
                &&& final(breadcrumb)@.is_prefix_of(old(breadcrumb)@)
                &&& split_into(
                    old(self).pager.pages()[old(breadcrumb)@.last()],
                    final(self).pager.pages(),
                    old(breadcrumb)@.last(),
                    old(self).pager.next(),
                )
                &&& !old(self).pager.pages().contains_key(old(self).pager.next())
                &&& forall|id: u32|
                    #[trigger] old(self).pager.pages().contains_key(id) && !old(breadcrumb)@.contains(
                        id,
                    ) ==> final(self).pager.pages().contains_key(id) && final(self).pager.pages()[id]
                        == old(self).pager.pages()[id]
            },
    {
        if breadcrumb.len() == 0 {
            return Err(BtreeError::NoOverflowPage);
        }
        self.split_up(breadcrumb)
    }

    /// Inserts `val`: it goes into the leaf where the search for it ends,
    /// and a leaf that gets one key too many is split. Fails, changing
    /// nothing, when `val` is already in the tree.
    #[verifier::spinoff_prover]
    pub fn insert(&mut self, val: i64) -> (r: Result<(), BtreeError>)
        requires
            old(self).inv(),
            !old(self).keys().contains(val) ==> old(self).next_page_id() + old(self).height() + 2
                < u32::MAX,
        ensures
            old(self).keys().contains(val) ==> r == Err::<(), BtreeError>(BtreeError::AlreadyExists)
                && *final(self) == *old(self),
            !old(self).keys().contains(val) ==> {
                &&& r is Ok
                &&& final(self).inv()
                &&& final(self).keys() == old(self).keys().insert(val)
                &&& final(self).height() == old(self).height() || final(self).height()
                    == old(self).height() + 1
                &&& old(self).next_page_id() <= final(self).next_page_id() <= old(self).next_page_id()
                    + old(self).height() + 2
            },
            !old(self).keys().contains(val) ==> forall|id: u32|
                #[trigger] old(self).has_page(id) && old(self).is_leaf_page(id) && id != old(
                    self,
                ).home_leaf(val) ==> final(self).has_page(id) && final(self).keys_of_page(id) == old(
                    self,
                ).keys_of_page(id),
            !old(self).keys().contains(val) && old(self).key_count(old(self).home_leaf(val)) == 2
                * DEGREE - 2 ==> {
                let leaf = old(self).home_leaf(val);
                let fresh = old(self).next_page_id();
                &&& !old(self).has_page(fresh)
                &&& final(self).has_page(leaf)
                &&& final(self).has_page(fresh)
                &&& exists|i: int|
                    #![trigger old(self).keys_of_page(leaf).insert(i, val)]
                    0 <= i <= 2 * DEGREE - 2
                        && final(self).keys_of_page(leaf)
                        == old(self).keys_of_page(leaf).insert(i, val).subrange(0, DEGREE - 1)
                        && final(self).keys_of_page(fresh)
                        == old(self).keys_of_page(leaf).insert(i, val).subrange(DEGREE as int, 2 * DEGREE - 1)
            },
            !old(self).keys().contains(val) && old(self).key_count(old(self).home_leaf(val)) < 2
                * DEGREE - 2 ==> {
                let leaf = old(self).home_leaf(val);
                &&& final(self).root() == old(self).root()
                &&& final(self).has_page(leaf)
                &&& exists|i: int|
                    0 <= i <= old(self).key_count(leaf) && final(self).keys_of_page(leaf) == old(
                        self,
                    ).keys_of_page(leaf).insert(i, val)
                &&& forall|id: u32|
                    id != leaf ==> (#[trigger] final(self).has_page(id) == old(self).has_page(id))
                        && (old(self).has_page(id) ==> final(self).keys_of_page(id) == old(
                        self,
                    ).keys_of_page(id))
            },
    {
        let ghost pages = self.pager.pages();
        let ghost g = self.shape@;
        let ghost root = self.root_id;
        let ghost next = self.pager.next();
        let mut breadcrumb = match self.get_insertion_breadcrumbs(val) {
            Ok(b) => b,
            Err(e) => {
                return Err(e);
            },
        };
        let n = breadcrumb.len();
        if n == 0 {
            return Err(BtreeError::NoPage);
        }
        let page_id = breadcrumb[n - 1];
        proof {
            assert(page_id == breadcrumb@.last());
            assert(pages.contains_key(page_id));
            assert(node_ok(pages, g, page_id));
            assert(occupancy_ok(pages, g, root, page_id));
            assert(g.level[page_id] == 0);
            assert(g.level[breadcrumb@[n - 1]] + (n - 1) == g.level[root]);
        }
        let mut page = self.pager.take(page_id);
        let enc = crate::trees::page::i64_to_bytes(val);
        proof {
            page.lemma_view();
        }
        proof {
            page.lemma_header_parses();
        }
        let n_slots = match page.add_cell(enc.as_slice()) {
            Ok(k) => k,
            Err(e) => {
                return Err(e);
            },
        };
        self.pager.put(page_id, page);
        proof {
            lemma_leaf_insert(pages, g, root, next, page_id, page, val);
            assert(self.pager.pages() =~= pages.insert(page_id, page));
            let h = choose|p: u32|
                #![trigger pages.contains_key(p)]
                pages.contains_key(p) && g.level[p] == 0 && within(val, g.lo[p], g.hi[p]);
            assert(pages.contains_key(page_id) && g.level[page_id] == 0 && within(val, g.lo[page_id], g.hi[page_id]));
            lemma_unique_at_level(pages, g, root, h, page_id, val);
        }
        let ghost op = pages[page_id];
        let ghost j = insert_pos(op.cells(), val);
        proof {
            assert(page.cells() == op.cells().insert(j, Cell { key: val, c_ptr: None }));
            assert(keys_sorted(op.cells()));
            lemma_lower_bound_sorted(op.cells(), val, 0, op.cells().len() as int);
            lemma_views(page);
            lemma_views(op);
            assert forall|i: int| 0 <= i < keys_of(page).len() implies keys_of(page)[i] == keys_of(op).insert(j, val)[i] by {
                assert(keys_of(page)[i] == page.cells()[i].key);
                if i < j {
                    assert(page.cells()[i] == op.cells()[i]);
                } else if i > j {
                    assert(page.cells()[i] == op.cells()[i - 1]);
                }
            }
            assert(keys_of(page) =~= keys_of(op).insert(j, val));
        }
        if n_slots >= 2 * DEGREE - 1 {
            proof {
                assert(is_path(self.pager.pages(), g, root, breadcrumb@));
            }
            let ghost bc = breadcrumb@;
            match self.handle_overflow(&mut breadcrumb) {
                Ok(Some(new_root_id)) => {
                    self.root_id = new_root_id;
                },
                Ok(None) => {},
                Err(e) => {
                    return Err(e);
                },
            }
            proof {
                assert(bc.last() == page_id);
                assert(self.keys_of_page(page_id) == old(self).keys_of_page(page_id).insert(j, val).subrange(0, DEGREE - 1));
                assert(0 <= j <= 2 * DEGREE - 2);
                assert forall|id: u32|
                    #[trigger] pages.contains_key(id) && is_leaf(pages[id]) && id != page_id implies self.pager.pages().contains_key(id)
                        && self.pager.pages()[id] == pages[id] by {
                    assert(!bc.contains(id)) by {
                        if bc.contains(id) {
                            let i = choose|i: int| 0 <= i < bc.len() && bc[i] == id;
                            assert(g.level[bc[i]] + i == g.level[root]);
                            assert(node_ok(pages, g, id));
                        }
                    }
                }
            }
        } else {
            proof {
                // the witness for the position of `val` in its leaf
                assert(self.keys_of_page(page_id) == old(self).keys_of_page(page_id).insert(j, val));
                assert(0 <= j <= old(self).key_count(page_id));
            }
        }
        Ok(())
    }
}


/// A key strictly inside the bounds of one child of a page is not a key of
/// that page.
proof fn lemma_not_in_parent(p: Page, lo: Option<i64>, hi: Option<i64>, i: int, val: i64)
    requires
        keys_strictly_sorted(p.cells()),
        0 <= i <= n_keys(p),
        within(val, child_lo(p, lo, i), child_hi(p, hi, i)),
    ensures
        !page_keys(p).contains(val),
{
    if page_keys(p).contains(val) {
        let j = choose|j: int| 0 <= j < n_keys(p) && key_at(p, j) == val;
        if j < i {
            assert(key_at(p, j) <= key_at(p, i - 1));
        } else {
            assert(key_at(p, i) <= key_at(p, j));
        }
    }
}

/// A key lies in the bounds of one page only among those at its own level
/// and above: if `val` is within the bounds of page `p` and held by a page
/// `q` at least as high as `p`, then `q` is `p`.
#[verifier::rlimit(60)]
#[verifier::spinoff_prover]
proof fn lemma_key_home(pages: Map<u32, Page>, g: Shape, root: u32, p: u32, q: u32, val: i64)
    requires
        shape_ok(pages, g, root),
        pages.contains_key(p),
        pages.contains_key(q),
        within(val, g.lo[p], g.hi[p]),
        page_keys(pages[q]).contains(val),
        g.level[q] >= g.level[p],
    ensures
        p == q,
{
    assert(node_ok(pages, g, q));
    assert(within(val, g.lo[q], g.hi[q])) by {
        let j = choose|j: int| 0 <= j < n_keys(pages[q]) && key_at(pages[q], j) == val;
        assert(within(key_at(pages[q], j), g.lo[q], g.hi[q]));
    }
    let l = (g.level[q] - g.level[p]) as nat;
    assert(g.level[q] <= g.level[root]) by {
        if q != root {
            assert(g.level[q] < g.level[root]);
        }
    }
    lemma_anc(pages, g, root, p, l);
    let a = anc(g, p, l);
    lemma_unique_at_level(pages, g, root, a, q, val);
    if l == 0 {
        assert(anc(g, p, 0) == p);
    } else {
        let b = anc(g, p, (l - 1) as nat);
        lemma_anc(pages, g, root, p, (l - 1) as nat);
        let qp = pages[q];
        let i = choose|i: int|
            0 <= i <= n_keys(qp) && #[trigger] child_at(qp, i) == b && g.lo[b] == child_lo(
                qp,
                g.lo[q],
                i,
            ) && g.hi[b] == child_hi(qp, g.hi[q], i);
        lemma_not_in_parent(qp, g.lo[q], g.hi[q], i, val);
    }
}

/// A key of the tree is held by one page, at one position.
proof fn lemma_key_unique(pages: Map<u32, Page>, g: Shape, root: u32, p: u32, i: int, q: u32, j: int)
    requires
        shape_ok(pages, g, root),
        pages.contains_key(p),
        pages.contains_key(q),
        0 <= i < n_keys(pages[p]),
        0 <= j < n_keys(pages[q]),
        key_at(pages[p], i) == key_at(pages[q], j),
    ensures
        p == q,
        i == j,
{
    let val = key_at(pages[p], i);
    assert(node_ok(pages, g, p));
    assert(node_ok(pages, g, q));
    assert(within(key_at(pages[p], i), g.lo[p], g.hi[p]));
    assert(within(key_at(pages[q], j), g.lo[q], g.hi[q]));
    assert(page_keys(pages[q]).contains(val));
    assert(page_keys(pages[p]).contains(val));
    if g.level[q] >= g.level[p] {
        lemma_key_home(pages, g, root, p, q, val);
    } else {
        lemma_key_home(pages, g, root, q, p, val);
    }
    if i < j {
        assert(key_at(pages[p], i) < key_at(pages[p], j));
    } else if j < i {
        assert(key_at(pages[p], j) < key_at(pages[p], i));
    }
}

impl Btree {
    /// Descends from the root along the search path of `val` and returns the
    /// ids of the pages passed, ending at the page that holds `val`, with
    /// its index there; fails when the search ends at a leaf without it.
    fn get_deletion_breadcrumbs(&self, val: i64) -> (r: Result<(Vec<u32>, usize), BtreeError>)
        requires
            self.inv(),
        ensures
            !self.keys().contains(val) ==> r == Err::<(Vec<u32>, usize), BtreeError>(
                BtreeError::NotFound,
            ),
            self.keys().contains(val) ==> r is Ok,
            r matches Ok((bc, i)) ==> {
                let pages = self.pager.pages();
                let g = self.shape@;
                &&& is_path(pages, g, self.root_id, bc@)
                &&& i < n_keys(pages[bc@.last()])
                &&& key_at(pages[bc@.last()], i as int) == val
            },
    {
        let ghost pages = self.pager.pages();
        let ghost g = self.shape@;
        let ghost root = self.root_id;
        let mut breadcrumb: Vec<u32> = Vec::new();
        let mut page_id = self.root_id;
        loop
            invariant
                self.inv(),
                pages == self.pager.pages(),
                g == self.shape@,
                root == self.root_id,
                pages.contains_key(page_id),
                within(val, g.lo[page_id], g.hi[page_id]),
                breadcrumb@.len() == 0 ==> page_id == root,
                breadcrumb@.len() > 0 ==> is_path(pages, g, root, breadcrumb@) && g.parent[page_id]
                    == breadcrumb@.last() && g.level[page_id] + breadcrumb@.len() == g.level[root],
            decreases g.level[page_id],
        {
            let page = self.pager.fetch(page_id);
            proof {
                assert(node_ok(pages, g, page_id));
                page.lemma_view();
            }
            let p_hdr = match page.header() {
                Ok(h) => h,
                Err(e) => {
                    return Err(e);
                },
            };
            let cells = match page.get_cells() {
                Ok(c) => c,
                Err(e) => {
                    return Err(e);
                },
            };
            let ghost bc0 = breadcrumb@;
            breadcrumb.push(page_id);
            proof {
                assert(is_path(pages, g, root, breadcrumb@)) by {
                    if bc0.len() > 0 {
                        assert(breadcrumb@[bc0.len() as int] == page_id);
                        assert forall|i: int| 0 <= i < breadcrumb@.len() - 1 implies g.parent[
                            #[trigger] breadcrumb@[i + 1]] == breadcrumb@[i] by {
                            if i + 1 < bc0.len() {
                                assert(breadcrumb@[i + 1] == bc0[i + 1]);
                            }
                        }
                    }
                }
            }
            match find_key(&cells, val) {
                Ok(i) => {
                    proof {
                        assert(key_at(pages[page_id], i as int) == val);
                        assert(page_keys(pages[page_id]).contains(val));
                        assert(all_keys(pages).contains(val));
                    }
                    return Ok((breadcrumb, i));
                },
                Err(i) => {
                    proof {
                        assert(!page_keys(pages[page_id]).contains(val)) by {
                            if page_keys(pages[page_id]).contains(val) {
                                let j = choose|j: int|
                                    0 <= j < n_keys(pages[page_id]) && key_at(pages[page_id], j)
                                        == val;
                                assert(cells@[j].key == val);
                            }
                        }
                    }
                    if p_hdr.page_ty == PageKind::Leaf {
                        proof {
                            assert forall|q: u32| pages.contains_key(q) implies !page_keys(
                                pages[q],
                            ).contains(val) by {
                                lemma_leaf_absent(pages, g, root, page_id, val, q);
                            }
                            assert(!all_keys(pages).contains(val));
                        }
                        return Err(BtreeError::NotFound);
                    }
                    let child_page_id = if i < cells.len() {
                        cells[i].c_ptr.unwrap()
                    } else {
                        p_hdr.rightmost_ptr
                    };
                    proof {
                        let pg = pages[page_id];
                        assert(child_at(pg, i as int) == child_page_id);
                        if i > 0 {
                            assert(cells@[i - 1].key < val);
                        }
                        if i < cells@.len() {
                            assert(cells@[i as int].key > val);
                        }
                    }
                    page_id = child_page_id;
                },
            }
        }
    }
}


/// `bc` is a descent from the root whose last page may hold one key fewer
/// than the tree invariant asks (the root: no key at all); the rest of the
/// tree satisfies the invariant.
pub open spec fn under_ok(pages: Map<u32, Page>, g: Shape, root: u32, next: u32, bc: Seq<u32>) -> bool {
    if bc.len() == 0 {
        tree_ok(pages, g, root, next, None, 0)
    } else {
        let x = bc.last();
        &&& is_path(pages, g, root, bc)
        &&& tree_ok(pages, g, root, next, Some(x), n_keys(pages[x]))
        &&& n_keys(pages[x]) <= 2 * DEGREE - 2
        &&& x != root ==> n_keys(pages[x]) >= DEGREE - 2
    }
}

/// Taking a key out of a leaf keeps the tree in order; only that leaf may
/// end up with too few keys.
#[verifier::rlimit(40)]
proof fn lemma_leaf_remove(pages: Map<u32, Page>, g: Shape, root: u32, next: u32, p: u32, np: Page, i: int)
    requires
        tree_ok(pages, g, root, next, Some(p), n_keys(pages[p])),
        pages.contains_key(p),
        is_leaf(pages[p]),
        0 <= i < n_keys(pages[p]),
        np.wf(),
        compact(np),
        is_leaf(np),
        np.cells() == pages[p].cells().remove(i),
    ensures
        tree_ok(pages.insert(p, np), g, root, next, Some(p), n_keys(np)),
        n_keys(np) == n_keys(pages[p]) - 1,
        all_keys(pages.insert(p, np)) == all_keys(pages).remove(key_at(pages[p], i)),
{
    let pages2 = pages.insert(p, np);
    let op = pages[p];
    let oc = op.cells();
    let nc = np.cells();
    let val = key_at(op, i);
    assert(node_ok(pages, g, p));
    assert(node_ok(pages2, g, p)) by {
        assert forall|a: int, b: int| 0 <= a < b < nc.len() implies #[trigger] nc[a].key
            < #[trigger] nc[b].key by {
            let a0 = if a < i { a } else { a + 1 };
            let b0 = if b < i { b } else { b + 1 };
            assert(nc[a] == oc[a0]);
            assert(nc[b] == oc[b0]);
        }
        assert forall|a: int| 0 <= a < n_keys(np) implies within(
            #[trigger] key_at(np, a),
            g.lo[p],
            g.hi[p],
        ) by {
            let a0 = if a < i { a } else { a + 1 };
            assert(nc[a] == oc[a0]);
            assert(within(key_at(op, a0), g.lo[p], g.hi[p]));
        }
    }
    assert forall|q: u32| #[trigger] pages2.contains_key(q) implies node_ok(pages2, g, q) by {
        if q != p {
            assert(node_ok(pages, g, q));
        }
    }
    assert forall|q: u32| #[trigger] pages2.contains_key(q) && q != root implies {
        &&& g.level[q] < g.level[root]
        &&& pages2.contains_key(g.parent[q])
        &&& !is_leaf(pages2[g.parent[q]])
        &&& exists|j: int|
            0 <= j <= n_keys(pages2[g.parent[q]]) && #[trigger] child_at(pages2[g.parent[q]], j)
                == q
    } by {
        assert(pages.contains_key(q));
        assert(g.parent[q] != p);
        assert(pages2[g.parent[q]] == pages[g.parent[q]]);
    }
    assert(shape_ok(pages2, g, root));
    assert forall|q: u32| #[trigger] pages2.contains_key(q) && q != p implies occupancy_ok(
        pages2,
        g,
        root,
        q,
    ) by {
        assert(pages.contains_key(q));
    }
    assert(all_keys(pages2) =~= all_keys(pages).remove(val)) by {
        assert forall|k: i64| all_keys(pages2).contains(k) implies all_keys(pages).remove(val).contains(
            k,
        ) by {
            let q = choose|q: u32| #[trigger] pages2.contains_key(q) && page_keys(pages2[q]).contains(k);
            let j = choose|j: int| 0 <= j < n_keys(pages2[q]) && key_at(pages2[q], j) == k;
            if q == p {
                let j0 = if j < i { j } else { j + 1 };
                assert(nc[j] == oc[j0]);
                assert(key_at(op, j0) == k);
                assert(page_keys(op).contains(k));
                if j < i {
                    assert(key_at(op, j) < key_at(op, i));
                } else {
                    assert(key_at(op, i) < key_at(op, j + 1));
                }
            } else {
                assert(page_keys(pages[q]).contains(k));
                if k == val {
                    lemma_key_unique(pages, g, root, q, j, p, i);
                }
            }
        }
        assert forall|k: i64| all_keys(pages).remove(val).contains(k) implies all_keys(
            pages2,
        ).contains(k) by {
            let q = choose|q: u32| #[trigger] pages.contains_key(q) && page_keys(pages[q]).contains(k);
            let j = choose|j: int| 0 <= j < n_keys(pages[q]) && key_at(pages[q], j) == k;
            assert(pages2.contains_key(q));
            if q == p {
                assert(j != i);
                if j < i {
                    assert(nc[j] == oc[j]);
                    assert(key_at(np, j) == k);
                } else {
                    assert(nc[j - 1] == oc[j]);
                    assert(key_at(np, j - 1) == k);
                }
            }
            assert(page_keys(pages2[q]).contains(k));
        }
    }
}

/// A bound that was `val` becomes `pred`.
pub open spec fn swap_bound(b: Option<i64>, val: i64, pred: i64) -> Option<i64> {
    if b == Some(val) {
        Some(pred)
    } else {
        b
    }
}

/// The ghost bookkeeping after the key `val` of an internal page is replaced
/// by its predecessor `pred`: every bound that was `val` becomes `pred`.
pub open spec fn swap_shape(g: Shape, val: i64, pred: i64) -> Shape {
    Shape {
        level: g.level,
        parent: g.parent,
        lo: g.lo.map_values(|b: Option<i64>| swap_bound(b, val, pred)),
        hi: g.hi.map_values(|b: Option<i64>| swap_bound(b, val, pred)),
    }
}

/// Replacing the predecessor `pred` of the key `val` of internal page `t`
/// (`pred` being the last key of the leaf `l` that ends the descent to the
/// left of `val`) with `val`'s place, and taking `pred` out of `l`, keeps
/// the tree in order; only `l` may end up with too few keys.
#[verifier::rlimit(100)]
#[verifier::spinoff_prover]
proof fn lemma_swap_pred(
    pages: Map<u32, Page>,
    g: Shape,
    root: u32,
    next: u32,
    t: u32,
    idx: int,
    l: u32,
    tp: Page,
    lp: Page,
)
    requires
        tree_ok(pages, g, root, next, None, 0),
        pages.contains_key(t),
        pages.contains_key(l),
        !is_leaf(pages[t]),
        is_leaf(pages[l]),
        0 <= idx < n_keys(pages[t]),
        g.hi[l] == Some(key_at(pages[t], idx)),
        lo_le(child_lo(pages[t], g.lo[t], idx), g.lo[l]),
        n_keys(pages[l]) >= 1,
        tp.wf(),
        compact(tp),
        tp.hdr().page_ty == pages[t].hdr().page_ty,
        tp.hdr().rightmost_ptr == pages[t].hdr().rightmost_ptr,
        tp.cells() == pages[t].cells().update(
            idx,
            Cell {
                key: key_at(pages[l], n_keys(pages[l]) - 1),
                c_ptr: pages[t].cells()[idx].c_ptr,
            },
        ),
        lp.wf(),
        compact(lp),
        is_leaf(lp),
        lp.cells() == pages[l].cells().remove(n_keys(pages[l]) - 1),
    ensures
        ({
            let val = key_at(pages[t], idx);
            let pred = key_at(pages[l], n_keys(pages[l]) - 1);
            let pages2 = pages.insert(t, tp).insert(l, lp);
            let g2 = swap_shape(g, val, pred);
            &&& tree_ok(pages2, g2, root, next, Some(l), n_keys(lp))
            &&& n_keys(lp) == n_keys(pages[l]) - 1
            &&& all_keys(pages2) == all_keys(pages).remove(val)
            &&& g2.level == g.level
            &&& g2.parent == g.parent
        }),
{
    let ot = pages[t];
    let ol = pages[l];
    let nl = n_keys(ol);
    let val = key_at(ot, idx);
    let pred = key_at(ol, nl - 1);
    let pages2 = pages.insert(t, tp).insert(l, lp);
    let g2 = swap_shape(g, val, pred);
    assert(t != l);
    assert(node_ok(pages, g, t));
    assert(node_ok(pages, g, l));
    assert(within(pred, g.lo[l], g.hi[l]));
    assert(pred < val);
    assert(above(pred, child_lo(ot, g.lo[t], idx)));
    // no key of the tree lies strictly between `pred` and `val`
    assert forall|q: u32, j: int|
        pages.contains_key(q) && 0 <= j < n_keys(pages[q]) && #[trigger] key_at(pages[q], j) > pred
            implies key_at(pages[q], j) >= val by {
        let k = key_at(pages[q], j);
        if k < val {
            assert(within(k, g.lo[l], g.hi[l]));
            assert(page_keys(pages[q]).contains(k));
            lemma_key_home(pages, g, root, l, q, k);
            assert(key_at(ol, j) <= pred) by {
                if j < nl - 1 {
                    assert(key_at(ol, j) < key_at(ol, nl - 1));
                }
            }
        }
    }
    // `val` and `pred` each sit at one place only
    assert forall|q: u32, j: int|
        pages.contains_key(q) && 0 <= j < n_keys(pages[q]) && #[trigger] key_at(pages[q], j) == val
            implies q == t && j == idx by {
        lemma_key_unique(pages, g, root, q, j, t, idx);
    }
    assert forall|q: u32, j: int|
        pages.contains_key(q) && 0 <= j < n_keys(pages[q]) && #[trigger] key_at(pages[q], j) == pred
            implies q == l && j == nl - 1 by {
        lemma_key_unique(pages, g, root, q, j, l, nl - 1);
    }
    assert(g.lo[t] != Some(val) && g.hi[t] != Some(val)) by {
        assert(within(key_at(ot, idx), g.lo[t], g.hi[t]));
    }
    // the keys of the new pages, by position
    assert forall|j: int| 0 <= j < n_keys(tp) implies #[trigger] key_at(tp, j) == (if j == idx {
        pred
    } else {
        key_at(ot, j)
    }) by {}
    assert forall|j: int| 0 <= j < n_keys(lp) implies #[trigger] key_at(lp, j) == key_at(ol, j) by {}
    assert forall|j: int| 0 <= j <= n_keys(tp) implies #[trigger] child_at(tp, j) == child_at(ot, j) by {
        if j < n_keys(tp) {
            assert(tp.cells()[j].c_ptr == ot.cells()[j].c_ptr);
        }
    }
    assert forall|q: u32| #[trigger] pages2.contains_key(q) implies node_ok(pages2, g2, q) by {
        let p = pages[q];
        let p2 = pages2[q];
        assert(node_ok(pages, g, q));
        assert(g2.lo.contains_key(q) && g2.hi.contains_key(q));
        assert(g2.lo[q] == swap_bound(g.lo[q], val, pred));
        assert(g2.hi[q] == swap_bound(g.hi[q], val, pred));
        // keys in order and within the new bounds
        if q == t {
            assert(keys_strictly_sorted(p2.cells())) by {
                assert forall|a: int, b: int| 0 <= a < b < n_keys(p2) implies #[trigger] p2.cells()[a].key
                    < #[trigger] p2.cells()[b].key by {
                    assert(p2.cells()[a].key == key_at(p2, a));
                    assert(p2.cells()[b].key == key_at(p2, b));
                    assert(key_at(ot, a) < key_at(ot, b));
                    if b == idx && a < idx {
                        assert(key_at(ot, a) <= key_at(ot, idx - 1));
                    }
                }
            }
            assert forall|j: int| 0 <= j < n_keys(p2) implies within(
                #[trigger] key_at(p2, j),
                g2.lo[q],
                g2.hi[q],
            ) by {
                assert(within(key_at(ot, j), g.lo[t], g.hi[t]));
                if j == idx {
                    if idx > 0 {
                        assert(within(key_at(ot, 0), g.lo[t], g.hi[t]));
                        assert(key_at(ot, 0) <= key_at(ot, idx - 1));
                    }
                }
            }
        } else if q == l {
            assert(keys_strictly_sorted(p2.cells())) by {
                assert forall|a: int, b: int| 0 <= a < b < n_keys(p2) implies #[trigger] p2.cells()[a].key
                    < #[trigger] p2.cells()[b].key by {
                    assert(p2.cells()[a].key == key_at(ol, a));
                    assert(p2.cells()[b].key == key_at(ol, b));
                }
            }
            assert forall|j: int| 0 <= j < n_keys(p2) implies within(
                #[trigger] key_at(p2, j),
                g2.lo[q],
                g2.hi[q],
            ) by {
                assert(within(key_at(ol, j), g.lo[l], g.hi[l]));
                assert(key_at(ol, j) < pred);
                assert(g.lo[l] != Some(val));
            }
        } else {
            assert(p2 == p);
            assert forall|j: int| 0 <= j < n_keys(p2) implies within(
                #[trigger] key_at(p2, j),
                g2.lo[q],
                g2.hi[q],
            ) by {
                let k = key_at(p, j);
                assert(within(k, g.lo[q], g.hi[q]));
                assert(k != pred);
                if k > pred {
                    assert(k >= val);
                }
            }
        }
        // children
        if !is_leaf(p2) {
            assert(q != l);
            assert forall|i: int| 0 <= i <= n_keys(p2) implies {
                let c = #[trigger] child_at(p2, i);
                &&& pages2.contains_key(c)
                &&& g2.level.contains_key(c)
                &&& g2.parent.contains_key(c)
                &&& g2.level[c] + 1 == g2.level[q]
                &&& g2.parent[c] == q
                &&& g2.lo[c] == child_lo(p2, g2.lo[q], i)
                &&& g2.hi[c] == child_hi(p2, g2.hi[q], i)
            } by {
                let c = child_at(p, i);
                assert(child_at(p2, i) == c);
                assert(pages.contains_key(c));
                assert(g.lo.contains_key(c) && g.hi.contains_key(c));
                assert(g2.lo[c] == swap_bound(g.lo[c], val, pred));
                assert(g2.hi[c] == swap_bound(g.hi[c], val, pred));
                if i > 0 {
                    if q == t && i - 1 == idx {
                    } else {
                        assert(key_at(p2, i - 1) == key_at(p, i - 1));
                        assert(key_at(p, i - 1) != val);
                    }
                }
                if i < n_keys(p2) {
                    if q == t && i == idx {
                    } else {
                        assert(key_at(p2, i) == key_at(p, i));
                        assert(key_at(p, i) != val);
                    }
                }
            }
        }
    }
    assert forall|q: u32| #[trigger] pages2.contains_key(q) && q != root implies {
        &&& g2.level[q] < g2.level[root]
        &&& pages2.contains_key(g2.parent[q])
        &&& !is_leaf(pages2[g2.parent[q]])
        &&& exists|j: int|
            0 <= j <= n_keys(pages2[g2.parent[q]]) && #[trigger] child_at(pages2[g2.parent[q]], j)
                == q
    } by {
        let pp = g.parent[q];
        assert(pages.contains_key(pp));
        let j = choose|j: int| 0 <= j <= n_keys(pages[pp]) && #[trigger] child_at(pages[pp], j) == q;
        assert(pp != l);
        if pp == t {
            assert(child_at(tp, j) == q);
        }
    }
    assert(shape_ok(pages2, g2, root)) by {
        assert(g2.lo[root] == swap_bound(g.lo[root], val, pred));
        assert(g2.hi[root] == swap_bound(g.hi[root], val, pred));
    }
    assert forall|q: u32| #[trigger] pages2.contains_key(q) && q != l implies occupancy_ok(
        pages2,
        g2,
        root,
        q,
    ) by {
        assert(occupancy_ok(pages, g, root, q));
    }
    assert(all_keys(pages2) =~= all_keys(pages).remove(val)) by {
        assert forall|k: i64| all_keys(pages2).contains(k) implies all_keys(pages).remove(val).contains(
            k,
        ) by {
            let q = choose|q: u32| #[trigger] pages2.contains_key(q) && page_keys(pages2[q]).contains(k);
            let j = choose|j: int| 0 <= j < n_keys(pages2[q]) && key_at(pages2[q], j) == k;
            if q == t {
                if j == idx {
                    assert(page_keys(ol).contains(k));
                    assert(pages.contains_key(l));
                } else {
                    assert(page_keys(ot).contains(k));
                    assert(key_at(ot, j) != val) by {
                        if key_at(ot, j) == val {
                            assert(key_at(ot, idx) == val);
                        }
                    }
                }
            } else if q == l {
                assert(page_keys(ol).contains(k));
                assert(key_at(ol, j) < val);
            } else {
                assert(page_keys(pages[q]).contains(k));
                assert(key_at(pages[q], j) != val);
            }
        }
        assert forall|k: i64| all_keys(pages).remove(val).contains(k) implies all_keys(
            pages2,
        ).contains(k) by {
            let q = choose|q: u32| #[trigger] pages.contains_key(q) && page_keys(pages[q]).contains(k);
            let j = choose|j: int| 0 <= j < n_keys(pages[q]) && key_at(pages[q], j) == k;
            if q == l && j == nl - 1 {
                assert(key_at(tp, idx) == k);
                assert(page_keys(pages2[t]).contains(k));
                assert(pages2.contains_key(t));
            } else if q == l {
                assert(key_at(lp, j) == k);
                assert(page_keys(pages2[l]).contains(k));
                assert(pages2.contains_key(l));
            } else if q == t {
                assert(j != idx);
                assert(key_at(tp, j) == k);
                assert(page_keys(pages2[t]).contains(k));
                assert(pages2.contains_key(t));
            } else {
                assert(page_keys(pages2[q]).contains(k));
                assert(pages2.contains_key(q));
            }
        }
    }
}


impl Btree {
    /// Takes key `idx` of the last page of the descent `bc` out of the tree:
    /// from a leaf directly; from an internal page by moving its predecessor
    /// (the last key of the rightmost leaf of its left subtree) into its
    /// place and taking that one out of its leaf. The descent to that leaf
    /// is appended to `bc`.
    #[verifier::rlimit(100)]
    #[verifier::spinoff_prover]
    fn take_out(&mut self, bc: &mut Vec<u32>, idx: usize)
        requires
            old(self).inv(),
            is_path(old(self).pager.pages(), old(self).shape@, old(self).root_id, old(bc)@),
            idx < n_keys(old(self).pager.pages()[old(bc)@.last()]),
        ensures
            final(self).keys() == old(self).keys().remove(
                key_at(old(self).pager.pages()[old(bc)@.last()], idx as int),
            ),
            under_ok(
                final(self).pager.pages(),
                final(self).shape@,
                final(self).root_id,
                final(self).pager.next(),
                final(bc)@,
            ),
            final(bc)@.len() > 0,
            final(self).root_id == old(self).root_id,
            final(self).pager.next() == old(self).pager.next(),
            final(self).shape@.level == old(self).shape@.level,
            is_leaf(old(self).pager.pages()[old(bc)@.last()]) ==> {
                let t = old(bc)@.last();
                &&& final(bc)@ == old(bc)@
                &&& final(self).pager.pages() == old(self).pager.pages().insert(
                    t,
                    final(self).pager.pages()[t],
                )
                &&& keys_of(final(self).pager.pages()[t]) == keys_of(
                    old(self).pager.pages()[t],
                ).remove(idx as int)
            },
    {
        let ghost pages = self.pager.pages();
        let ghost g = self.shape@;
        let ghost root = self.root_id;
        let ghost next = self.pager.next();
        let n = bc.len();
        let target = bc[n - 1];
        let ghost ot = pages[target];
        let ghost val = key_at(ot, idx as int);
        proof {
            assert(target == bc@.last());
            assert(pages.contains_key(target));
            assert(node_ok(pages, g, target));
            ot.lemma_view();
        }
        let hdr = match self.pager.fetch(target).header() {
            Ok(h) => h,
            Err(_) => {
                return;
            },
        };
        if hdr.page_ty != PageKind::Leaf {
            let target_cells = match self.pager.fetch(target).get_cells() {
                Ok(c) => c,
                Err(_) => {
                    return;
                },
            };
            let left_child = match target_cells[idx].c_ptr {
                Some(c) => c,
                None => {
                    return;
                },
            };
            proof {
                assert(child_at(ot, idx as int) == left_child);
            }
            bc.push(left_child);
            let mut curr = left_child;
            proof {
                assert(bc@.last() == curr);
                assert forall|i: int| 0 <= i < bc@.len() - 1 implies g.parent[#[trigger] bc@[i + 1]]
                    == bc@[i] by {
                    if i + 1 < n {
                        assert(bc@[i + 1] == old(bc)@[i + 1]);
                    }
                }
                assert(g.level[bc@[n - 1]] + (n - 1) == g.level[root]);
            }
            loop
                invariant
                    self.inv(),
                    pages == self.pager.pages(),
                    g == self.shape@,
                    root == self.root_id,
                    next == self.pager.next(),
                    pages.contains_key(target),
                    ot == pages[target],
                    !is_leaf(ot),
                    idx < n_keys(ot),
                    val == key_at(ot, idx as int),
                    pages.contains_key(curr),
                    n >= 1,
                    bc@.len() > n,
                    bc@.last() == curr,
                    bc@[n - 1] == target,
                    is_path(pages, g, root, bc@),
                    g.level[curr] < g.level[target],
                    g.hi[curr] == Some(val),
                    lo_le(child_lo(ot, g.lo[target], idx as int), g.lo[curr]),
                ensures
                    pages.contains_key(curr),
                    is_leaf(pages[curr]),
                    bc@.len() > n,
                    bc@.last() == curr,
                    bc@[n - 1] == target,
                    is_path(pages, g, root, bc@),
                    g.level[curr] < g.level[target],
                    g.hi[curr] == Some(val),
                    lo_le(child_lo(ot, g.lo[target], idx as int), g.lo[curr]),
                decreases g.level[curr],
            {
                proof {
                    assert(node_ok(pages, g, curr));
                    pages[curr].lemma_view();
                }
                let curr_hdr = match self.pager.fetch(curr).header() {
                    Ok(h) => h,
                    Err(_) => {
                        return;
                    },
                };
                if curr_hdr.page_ty == PageKind::Leaf {
                    break;
                }
                let next_id = curr_hdr.rightmost_ptr;
                let ghost bc0 = bc@;
                proof {
                    let cp = pages[curr];
                    assert(child_at(cp, n_keys(cp)) == next_id);
                    lemma_child_bounds(pages, g, curr, n_keys(cp));
                }
                bc.push(next_id);
                proof {
                    assert(bc@.last() == next_id);
                    assert(bc@[n - 1] == bc0[n - 1]);
                    assert forall|i: int| 0 <= i < bc@.len() implies pages.contains_key(
                        #[trigger] bc@[i],
                    ) && g.level[bc@[i]] + i == g.level[root] by {
                        if i < bc0.len() {
                            assert(bc@[i] == bc0[i]);
                        } else {
                            assert(g.level[bc0[bc0.len() - 1]] + (bc0.len() - 1) == g.level[root]);
                        }
                    }
                    assert forall|i: int| 0 <= i < bc@.len() - 1 implies g.parent[
                        #[trigger] bc@[i + 1]] == bc@[i] by {
                        if i + 1 < bc0.len() {
                            assert(bc@[i + 1] == bc0[i + 1]);
                            assert(g.parent[bc0[i + 1]] == bc0[i]);
                        }
                    }
                }
                curr = next_id;
            }
            let leaf_cells = match self.pager.fetch(curr).get_cells() {
                Ok(c) => c,
                Err(_) => {
                    return;
                },
            };
            let ghost ol = pages[curr];
            proof {
                assert(node_ok(pages, g, curr));
                assert(curr != root);
                assert(occupancy_ok(pages, g, root, curr));
                assert(leaf_cells@ == ol.cells());
            }
            let leaf_idx = leaf_cells.len() - 1;
            let pred = leaf_cells[leaf_idx].key;
            let mut tpage = self.pager.take(target);
            tpage.set_key_at(idx as u16, pred);
            self.pager.put(target, tpage);
            let mut lpage = self.pager.take(curr);
            proof {
                assert(curr != target);
                lpage.lemma_view();
                assert(kind_consistent(ol.cells().remove(leaf_idx as int), PageKind::Leaf));
                assert(keys_strictly_sorted(ol.cells().remove(leaf_idx as int)));
                lemma_refill(ol.cells().remove(leaf_idx as int), PageKind::Leaf);
            }
            let _ = lpage.remove_cell(leaf_idx);
            self.pager.put(curr, lpage);
            proof {
                lemma_swap_pred(pages, g, root, next, target, idx as int, curr, tpage, lpage);
                assert(self.pager.pages() =~= pages.insert(target, tpage).insert(curr, lpage));
            }
            self.shape = Ghost(swap_shape(g, val, pred));
        } else {
            let mut tpage = self.pager.take(target);
            proof {
                assert(kind_consistent(ot.cells().remove(idx as int), PageKind::Leaf));
                assert(keys_strictly_sorted(ot.cells().remove(idx as int)));
                lemma_refill(ot.cells().remove(idx as int), PageKind::Leaf);
            }
            let _ = tpage.remove_cell(idx);
            self.pager.put(target, tpage);
            proof {
                assert(occupancy_ok(pages, g, root, target));
                assert forall|id: u32| #[trigger] pages.contains_key(id) implies (if Some(target)
                    == Some(id) {
                    n_keys(pages[id]) == n_keys(pages[target])
                } else {
                    occupancy_ok(pages, g, root, id)
                }) by {}
                lemma_leaf_remove(pages, g, root, next, target, tpage, idx as int);
                assert(self.pager.pages() =~= pages.insert(target, tpage));
                lemma_views(tpage);
                lemma_views(ot);
                assert forall|i: int| 0 <= i < keys_of(tpage).len() implies keys_of(tpage)[i]
                    == keys_of(ot).remove(idx as int)[i] by {
                    if i < idx {
                        assert(tpage.cells()[i] == ot.cells()[i]);
                    } else {
                        assert(tpage.cells()[i] == ot.cells()[i + 1]);
                    }
                }
                assert(keys_of(tpage) =~= keys_of(ot).remove(idx as int));
            }
        }
    }
}


/// A page whose content and bounds stay, and whose children keep their
/// pages, levels, parents and bounds, stays in order towards them.
proof fn lemma_node_same(pages: Map<u32, Page>, g: Shape, pages2: Map<u32, Page>, g2: Shape, q: u32)
    requires
        pages.contains_key(q),
        node_ok(pages, g, q),
        pages2.contains_key(q),
        pages2[q] == pages[q],
        g2.level.contains_key(q),
        g2.lo.contains_key(q),
        g2.hi.contains_key(q),
        g2.level[q] == g.level[q],
        g2.lo[q] == g.lo[q],
        g2.hi[q] == g.hi[q],
        !is_leaf(pages[q]) ==> forall|i: int|
            0 <= i <= n_keys(pages[q]) ==> {
                let c = #[trigger] child_at(pages[q], i);
                &&& pages2.contains_key(c)
                &&& g2.level.contains_key(c)
                &&& g2.parent.contains_key(c)
                &&& g2.level[c] == g.level[c]
                &&& g2.parent[c] == g.parent[c]
                &&& g2.lo[c] == g.lo[c]
                &&& g2.hi[c] == g.hi[c]
            },
    ensures
        node_ok(pages2, g2, q),
{
}

/// Borrowing from the left: page `p` (child `k + 1` of `u`, one key) takes
/// the separating key `pk` of `u` as its first key (and, if internal, the
/// rightmost child of `a` as its first child); its left sibling `a` (child
/// `k`, more than `DEGREE - 1` keys) gives up its last key `sl`, which
/// replaces `pk` in `u`.
pub open spec fn borrow_left_pre(
    pages: Map<u32, Page>,
    g: Shape,
    root: u32,
    next: u32,
    p: u32,
    a: u32,
    u: u32,
    k: int,
) -> bool {
    &&& tree_ok(pages, g, root, next, Some(p), n_keys(pages[p]))
    &&& pages.contains_key(p)
    &&& pages.contains_key(a)
    &&& pages.contains_key(u)
    &&& p != root
    &&& n_keys(pages[p]) == DEGREE - 2
    &&& !is_leaf(pages[u])
    &&& 0 <= k < n_keys(pages[u])
    &&& child_at(pages[u], k) == a
    &&& child_at(pages[u], k + 1) == p
    &&& n_keys(pages[a]) > DEGREE - 1
}

/// The ghost bookkeeping after a borrow from the left.
pub open spec fn borrow_left_shape(g: Shape, pages: Map<u32, Page>, p: u32, a: u32) -> Shape {
    let sl = key_at(pages[a], n_keys(pages[a]) - 1);
    Shape {
        level: g.level,
        parent: if is_leaf(pages[a]) {
            g.parent
        } else {
            g.parent.insert(pages[a].hdr().rightmost_ptr, p)
        },
        lo: g.lo.insert(p, Some(sl)),
        hi: g.hi.insert(a, Some(sl)),
    }
}

/// A borrow from the left gives a tree that satisfies the invariant, with
/// the same keys and levels.
#[verifier::rlimit(100)]
#[verifier::spinoff_prover]
proof fn lemma_borrow_left(
    pages: Map<u32, Page>,
    g: Shape,
    root: u32,
    next: u32,
    p: u32,
    a: u32,
    u: u32,
    k: int,
    pp: Page,
    ap: Page,
    up: Page,
)
    requires
        borrow_left_pre(pages, g, root, next, p, a, u, k),
        up.wf(),
        compact(up),
        up.hdr().page_ty == pages[u].hdr().page_ty,
        up.hdr().rightmost_ptr == pages[u].hdr().rightmost_ptr,
        up.cells() == pages[u].cells().update(
            k,
            Cell {
                key: key_at(pages[a], n_keys(pages[a]) - 1),
                c_ptr: pages[u].cells()[k].c_ptr,
            },
        ),
        pp.wf(),
        compact(pp),
        is_leaf(pp) == is_leaf(pages[p]),
        !is_leaf(pp) ==> pp.hdr().rightmost_ptr == pages[p].hdr().rightmost_ptr,
        pp.cells() == seq![
            Cell {
                key: key_at(pages[u], k),
                c_ptr: if is_leaf(pages[p]) {
                    None
                } else {
                    Some(pages[a].hdr().rightmost_ptr)
                },
            },
        ] + pages[p].cells(),
        ap.wf(),
        compact(ap),
        is_leaf(ap) == is_leaf(pages[a]),
        ap.cells() == pages[a].cells().drop_last(),
        !is_leaf(ap) ==> ap.hdr().rightmost_ptr == child_at(pages[a], n_keys(pages[a]) - 1),
    ensures
        ({
            let pages2 = pages.insert(u, up).insert(p, pp).insert(a, ap);
            let g2 = borrow_left_shape(g, pages, p, a);
            &&& tree_ok(pages2, g2, root, next, None, 0)
            &&& all_keys(pages2) == all_keys(pages)
            &&& g2.level == g.level
        }),
{
    let pages2 = pages.insert(u, up).insert(p, pp).insert(a, ap);
    let g2 = borrow_left_shape(g, pages, p, a);
    let op = pages[p];
    let oa = pages[a];
    let ou = pages[u];
    let na = n_keys(oa);
    let npp = n_keys(op);
    let sl = key_at(oa, na - 1);
    let pk = key_at(ou, k);
    let lr = oa.hdr().rightmost_ptr;
    let leaf = is_leaf(oa);
    assert(node_ok(pages, g, u));
    assert(node_ok(pages, g, a));
    assert(node_ok(pages, g, p));
    assert(p != a) by {
        lemma_kids_distinct(pages, g, u, k, k + 1);
    }
    assert(u != p && u != a) by {
        assert(g.level[p] + 1 == g.level[u]);
        assert(g.level[a] + 1 == g.level[u]);
    }
    assert(g.parent[p] == u && g.parent[a] == u);
    assert(g.level[p] == g.level[a]);
    assert(is_leaf(op) == leaf);
    assert(g.lo[p] == Some(pk));
    assert(g.hi[a] == Some(pk));
    assert(within(sl, g.lo[a], g.hi[a]));
    lemma_child_bounds(pages, g, u, k);
    lemma_child_bounds(pages, g, u, k + 1);
    if !leaf {
        assert(child_at(oa, na) == lr);
        assert(g.parent[lr] == a);
        assert(g.lo[lr] == Some(sl));
        assert(g.hi[lr] == Some(pk));
    }
    // the keys of the new pages
    assert forall|j: int| 0 <= j < n_keys(up) implies #[trigger] key_at(up, j) == (if j == k {
        sl
    } else {
        key_at(ou, j)
    }) by {}
    assert(n_keys(pp) == npp + 1);
    assert(key_at(pp, 0) == pk);
    assert forall|j: int| 0 < j < n_keys(pp) implies #[trigger] key_at(pp, j) == key_at(op, j - 1) by {}
    assert forall|j: int| 0 <= j < n_keys(ap) implies #[trigger] key_at(ap, j) == key_at(oa, j) by {}
    assert forall|j: int| 0 <= j <= n_keys(up) implies #[trigger] child_at(up, j) == child_at(ou, j) by {
        if j < n_keys(up) {
            assert(up.cells()[j].c_ptr == ou.cells()[j].c_ptr);
        }
    }
    if !leaf {
        assert(child_at(pp, 0) == lr);
        assert forall|j: int| 0 < j <= n_keys(pp) implies #[trigger] child_at(pp, j) == child_at(op, j - 1) by {
            if j < n_keys(pp) {
                assert(pp.cells()[j] == op.cells()[j - 1]);
            }
        }
        assert forall|j: int| 0 <= j <= n_keys(ap) implies #[trigger] child_at(ap, j) == child_at(oa, j) by {
            if j < n_keys(ap) {
                assert(ap.cells()[j] == oa.cells()[j]);
            }
        }
    }
    // children of `a` other than `lr`, and of `p`, are not `lr`
    if !leaf {
        assert forall|j: int| 0 <= j < na implies #[trigger] child_at(oa, j) != lr by {
            lemma_kids_distinct(pages, g, a, j, na);
        }
        assert forall|j: int| 0 <= j <= npp implies #[trigger] child_at(op, j) != lr by {
            assert(g.parent[child_at(op, j)] == p);
        }
    }
    // page u
    assert(node_ok(pages2, g2, u)) by {
        assert(pages2[u] == up);
        assert(keys_strictly_sorted(up.cells())) by {
            assert forall|i: int, j: int| 0 <= i < j < n_keys(up) implies #[trigger] up.cells()[i].key
                < #[trigger] up.cells()[j].key by {
                assert(up.cells()[i].key == key_at(up, i));
                assert(up.cells()[j].key == key_at(up, j));
                assert(key_at(ou, i) < key_at(ou, j));
                if j == k && i < k {
                    assert(key_at(ou, i) <= key_at(ou, k - 1));
                }
                if i == k {
                    assert(key_at(ou, k) <= key_at(ou, j));
                }
            }
        }
        assert forall|j: int| 0 <= j < n_keys(up) implies within(
            #[trigger] key_at(up, j),
            g2.lo[u],
            g2.hi[u],
        ) by {
            assert(within(key_at(ou, j), g.lo[u], g.hi[u]));
        }
        assert forall|i: int| 0 <= i <= n_keys(up) implies {
            let c = #[trigger] child_at(up, i);
            &&& pages2.contains_key(c)
            &&& g2.level.contains_key(c)
            &&& g2.parent.contains_key(c)
            &&& g2.level[c] + 1 == g2.level[u]
            &&& g2.parent[c] == u
            &&& g2.lo[c] == child_lo(up, g2.lo[u], i)
            &&& g2.hi[c] == child_hi(up, g2.hi[u], i)
        } by {
            let c = child_at(ou, i);
            assert(child_at(up, i) == c);
            assert(c != lr || leaf) by {
                if !leaf && c == lr {
                    assert(g.parent[lr] == a);
                }
            }
            if i == k {
                assert(c == a);
            } else if i == k + 1 {
                assert(c == p);
            } else {
                assert(c != a) by {
                    if i < k {
                        lemma_kids_distinct(pages, g, u, i, k);
                    } else {
                        lemma_kids_distinct(pages, g, u, k, i);
                    }
                }
                assert(c != p) by {
                    if i < k + 1 {
                        lemma_kids_distinct(pages, g, u, i, k + 1);
                    } else {
                        lemma_kids_distinct(pages, g, u, k + 1, i);
                    }
                }
            }
        }
    }
    // page p
    assert(node_ok(pages2, g2, p)) by {
        assert(pages2[p] == pp);
        assert(keys_strictly_sorted(pp.cells())) by {
            assert forall|i: int, j: int| 0 <= i < j < n_keys(pp) implies #[trigger] pp.cells()[i].key
                < #[trigger] pp.cells()[j].key by {
                assert(pp.cells()[i].key == key_at(pp, i));
                assert(pp.cells()[j].key == key_at(pp, j));
                assert(within(key_at(op, j - 1), g.lo[p], g.hi[p]));
                if i > 0 {
                    assert(key_at(op, i - 1) < key_at(op, j - 1));
                }
            }
        }
        assert forall|j: int| 0 <= j < n_keys(pp) implies within(
            #[trigger] key_at(pp, j),
            g2.lo[p],
            g2.hi[p],
        ) by {
            if j > 0 {
                assert(within(key_at(op, j - 1), g.lo[p], g.hi[p]));
            }
        }
        if !leaf {
            assert forall|i: int| 0 <= i <= n_keys(pp) implies {
                let c = #[trigger] child_at(pp, i);
                &&& pages2.contains_key(c)
                &&& g2.level.contains_key(c)
                &&& g2.parent.contains_key(c)
                &&& g2.level[c] + 1 == g2.level[p]
                &&& g2.parent[c] == p
                &&& g2.lo[c] == child_lo(pp, g2.lo[p], i)
                &&& g2.hi[c] == child_hi(pp, g2.hi[p], i)
            } by {
                if i > 0 {
                    let c = child_at(op, i - 1);
                    assert(child_at(pp, i) == c);
                    assert(c != lr);
                    assert(c != p && c != a && c != u) by {
                        assert(g.level[c] + 1 == g.level[p]);
                    }
                }
            }
        }
    }
    // page a
    assert(node_ok(pages2, g2, a)) by {
        assert(pages2[a] == ap);
        assert(keys_strictly_sorted(ap.cells())) by {
            assert forall|i: int, j: int| 0 <= i < j < n_keys(ap) implies #[trigger] ap.cells()[i].key
                < #[trigger] ap.cells()[j].key by {
                assert(ap.cells()[i].key == key_at(oa, i));
                assert(ap.cells()[j].key == key_at(oa, j));
            }
        }
        assert forall|j: int| 0 <= j < n_keys(ap) implies within(
            #[trigger] key_at(ap, j),
            g2.lo[a],
            g2.hi[a],
        ) by {
            assert(within(key_at(oa, j), g.lo[a], g.hi[a]));
            assert(key_at(oa, j) < sl);
        }
        if !leaf {
            assert forall|i: int| 0 <= i <= n_keys(ap) implies {
                let c = #[trigger] child_at(ap, i);
                &&& pages2.contains_key(c)
                &&& g2.level.contains_key(c)
                &&& g2.parent.contains_key(c)
                &&& g2.level[c] + 1 == g2.level[a]
                &&& g2.parent[c] == a
                &&& g2.lo[c] == child_lo(ap, g2.lo[a], i)
                &&& g2.hi[c] == child_hi(ap, g2.hi[a], i)
            } by {
                let c = child_at(oa, i);
                assert(child_at(ap, i) == c);
                assert(c != lr);
                assert(c != p && c != a && c != u) by {
                    assert(g.level[c] + 1 == g.level[a]);
                }
            }
        }
    }
    // the other pages
    assert forall|q: u32| #[trigger] pages2.contains_key(q) implies node_ok(pages2, g2, q) by {
        if q != u && q != p && q != a {
            assert(node_ok(pages, g, q));
            let pq = pages[q];
            if !is_leaf(pq) {
                assert forall|i: int| 0 <= i <= n_keys(pq) implies {
                    let c = #[trigger] child_at(pq, i);
                    &&& pages2.contains_key(c)
                    &&& g2.level.contains_key(c)
                    &&& g2.parent.contains_key(c)
                    &&& g2.level[c] == g.level[c]
                    &&& g2.parent[c] == g.parent[c]
                    &&& g2.lo[c] == g.lo[c]
                    &&& g2.hi[c] == g.hi[c]
                } by {
                    let c = child_at(pq, i);
                    assert(g.parent[c] == q);
                }
            }
            lemma_node_same(pages, g, pages2, g2, q);
        }
    }
    // every page but the root is a child of its parent
    assert forall|q: u32| #[trigger] pages2.contains_key(q) && q != root implies {
        &&& g2.level[q] < g2.level[root]
        &&& pages2.contains_key(g2.parent[q])
        &&& !is_leaf(pages2[g2.parent[q]])
        &&& exists|j: int|
            0 <= j <= n_keys(pages2[g2.parent[q]]) && #[trigger] child_at(pages2[g2.parent[q]], j)
                == q
    } by {
        if !leaf && q == lr {
            assert(g2.parent[q] == p);
            assert(child_at(pp, 0) == q);
        } else {
            let pq = g.parent[q];
            assert(g2.parent[q] == pq);
            assert(pages.contains_key(pq));
            let j = choose|j: int| 0 <= j <= n_keys(pages[pq]) && #[trigger] child_at(pages[pq], j) == q;
            assert(child_at(pages[pq], j) == q);
            if pq == u {
                assert(child_at(up, j) == q);
            } else if pq == p {
                assert(child_at(pp, j + 1) == q);
            } else if pq == a {
                assert(j < na) by {
                    if j == na {
                        assert(q == lr);
                    }
                }
                assert(child_at(ap, j) == q);
            }
        }
    }
    assert(shape_ok(pages2, g2, root));
    assert forall|q: u32| #[trigger] pages2.contains_key(q) implies occupancy_ok(pages2, g2, root, q)
        && 1 <= q < next by {
        if q != p {
            assert(occupancy_ok(pages, g, root, q));
        }
    }
    // the keys
    assert(all_keys(pages2) =~= all_keys(pages)) by {
        assert forall|x: i64| all_keys(pages2).contains(x) implies all_keys(pages).contains(x) by {
            let q = choose|q: u32| #[trigger] pages2.contains_key(q) && page_keys(pages2[q]).contains(x);
            let j = choose|j: int| 0 <= j < n_keys(pages2[q]) && key_at(pages2[q], j) == x;
            if q == a {
                assert(page_keys(oa).contains(x));
            } else if q == p {
                if j == 0 {
                    assert(page_keys(ou).contains(x));
                    assert(pages.contains_key(u));
                } else {
                    assert(page_keys(op).contains(x));
                }
            } else if q == u {
                if j == k {
                    assert(page_keys(oa).contains(x));
                    assert(pages.contains_key(a));
                } else {
                    assert(page_keys(ou).contains(x));
                }
            } else {
                assert(page_keys(pages[q]).contains(x));
            }
        }
        assert forall|x: i64| all_keys(pages).contains(x) implies all_keys(pages2).contains(x) by {
            let q = choose|q: u32| #[trigger] pages.contains_key(q) && page_keys(pages[q]).contains(x);
            let j = choose|j: int| 0 <= j < n_keys(pages[q]) && key_at(pages[q], j) == x;
            if q == a {
                if j == na - 1 {
                    assert(key_at(up, k) == x);
                    assert(page_keys(pages2[u]).contains(x));
                    assert(pages2.contains_key(u));
                } else {
                    assert(key_at(ap, j) == x);
                    assert(page_keys(pages2[a]).contains(x));
                    assert(pages2.contains_key(a));
                }
            } else if q == p {
                assert(key_at(pp, j + 1) == x);
                assert(page_keys(pages2[p]).contains(x));
                assert(pages2.contains_key(p));
            } else if q == u {
                if j == k {
                    assert(key_at(pp, 0) == x);
                    assert(page_keys(pages2[p]).contains(x));
                    assert(pages2.contains_key(p));
                } else {
                    assert(key_at(up, j) == x);
                    assert(page_keys(pages2[u]).contains(x));
                    assert(pages2.contains_key(u));
                }
            } else {
                assert(page_keys(pages2[q]).contains(x));
                assert(pages2.contains_key(q));
            }
        }
    }
}


/// Borrowing from the right: page `p` (child `k` of `u`, one key) takes the
/// separating key `pk` of `u` as its last key (and, if internal, the first
/// child of `b` as its rightmost child, its own rightmost child going with
/// `pk`); its right sibling `b` (child `k + 1`, more than `DEGREE - 1` keys)
/// gives up its first key `sf`, which replaces `pk` in `u`.
pub open spec fn borrow_right_pre(
    pages: Map<u32, Page>,
    g: Shape,
    root: u32,
    next: u32,
    p: u32,
    b: u32,
    u: u32,
    k: int,
) -> bool {
    &&& tree_ok(pages, g, root, next, Some(p), n_keys(pages[p]))
    &&& pages.contains_key(p)
    &&& pages.contains_key(b)
    &&& pages.contains_key(u)
    &&& p != root
    &&& n_keys(pages[p]) == DEGREE - 2
    &&& !is_leaf(pages[u])
    &&& 0 <= k < n_keys(pages[u])
    &&& child_at(pages[u], k) == p
    &&& child_at(pages[u], k + 1) == b
    &&& n_keys(pages[b]) > DEGREE - 1
}

/// The ghost bookkeeping after a borrow from the right.
pub open spec fn borrow_right_shape(g: Shape, pages: Map<u32, Page>, p: u32, b: u32) -> Shape {
    let sf = key_at(pages[b], 0);
    Shape {
        level: g.level,
        parent: if is_leaf(pages[b]) {
            g.parent
        } else {
            g.parent.insert(child_at(pages[b], 0), p)
        },
        lo: g.lo.insert(b, Some(sf)),
        hi: g.hi.insert(p, Some(sf)),
    }
}

/// A borrow from the right gives a tree that satisfies the invariant, with
/// the same keys and levels.
#[verifier::rlimit(100)]
#[verifier::spinoff_prover]
proof fn lemma_borrow_right(
    pages: Map<u32, Page>,
    g: Shape,
    root: u32,
    next: u32,
    p: u32,
    b: u32,
    u: u32,
    k: int,
    pp: Page,
    bp: Page,
    up: Page,
)
    requires
        borrow_right_pre(pages, g, root, next, p, b, u, k),
        up.wf(),
        compact(up),
        up.hdr().page_ty == pages[u].hdr().page_ty,
        up.hdr().rightmost_ptr == pages[u].hdr().rightmost_ptr,
        up.cells() == pages[u].cells().update(
            k,
            Cell { key: key_at(pages[b], 0), c_ptr: pages[u].cells()[k].c_ptr },
        ),
        pp.wf(),
        compact(pp),
        is_leaf(pp) == is_leaf(pages[p]),
        !is_leaf(pp) ==> pp.hdr().rightmost_ptr == child_at(pages[b], 0),
        pp.cells() == pages[p].cells().push(
            Cell {
                key: key_at(pages[u], k),
                c_ptr: if is_leaf(pages[p]) {
                    None
                } else {
                    Some(pages[p].hdr().rightmost_ptr)
                },
            },
        ),
        bp.wf(),
        compact(bp),
        is_leaf(bp) == is_leaf(pages[b]),
        bp.cells() == pages[b].cells().subrange(1, n_keys(pages[b])),
        !is_leaf(bp) ==> bp.hdr().rightmost_ptr == pages[b].hdr().rightmost_ptr,
    ensures
        ({
            let pages2 = pages.insert(u, up).insert(p, pp).insert(b, bp);
            let g2 = borrow_right_shape(g, pages, p, b);
            &&& tree_ok(pages2, g2, root, next, None, 0)
            &&& all_keys(pages2) == all_keys(pages)
            &&& g2.level == g.level
        }),
{
    let pages2 = pages.insert(u, up).insert(p, pp).insert(b, bp);
    let g2 = borrow_right_shape(g, pages, p, b);
    let op = pages[p];
    let ob = pages[b];
    let ou = pages[u];
    let nb = n_keys(ob);
    let npp = n_keys(op);
    let sf = key_at(ob, 0);
    let pk = key_at(ou, k);
    let fc = child_at(ob, 0);
    let leaf = is_leaf(ob);
    assert(node_ok(pages, g, u));
    assert(node_ok(pages, g, b));
    assert(node_ok(pages, g, p));
    assert(p != b) by {
        lemma_kids_distinct(pages, g, u, k, k + 1);
    }
    assert(u != p && u != b) by {
        assert(g.level[p] + 1 == g.level[u]);
        assert(g.level[b] + 1 == g.level[u]);
    }
    assert(g.parent[p] == u && g.parent[b] == u);
    assert(g.level[p] == g.level[b]);
    assert(is_leaf(op) == leaf);
    assert(g.hi[p] == Some(pk));
    assert(g.lo[b] == Some(pk));
    assert(within(sf, g.lo[b], g.hi[b]));
    lemma_child_bounds(pages, g, u, k);
    lemma_child_bounds(pages, g, u, k + 1);
    if !leaf {
        assert(g.parent[fc] == b);
        assert(g.lo[fc] == Some(pk));
        assert(g.hi[fc] == Some(sf));
    }
    assert forall|j: int| 0 <= j < n_keys(up) implies #[trigger] key_at(up, j) == (if j == k {
        sf
    } else {
        key_at(ou, j)
    }) by {}
    assert(n_keys(pp) == npp + 1);
    assert(key_at(pp, npp) == pk);
    assert forall|j: int| 0 <= j < npp implies #[trigger] key_at(pp, j) == key_at(op, j) by {}
    assert(n_keys(bp) == nb - 1);
    assert forall|j: int| 0 <= j < n_keys(bp) implies #[trigger] key_at(bp, j) == key_at(ob, j + 1) by {}
    assert forall|j: int| 0 <= j <= n_keys(up) implies #[trigger] child_at(up, j) == child_at(ou, j) by {
        if j < n_keys(up) {
            assert(up.cells()[j].c_ptr == ou.cells()[j].c_ptr);
        }
    }
    if !leaf {
        assert(child_at(pp, npp + 1) == fc);
        assert forall|j: int| 0 <= j <= npp implies #[trigger] child_at(pp, j) == child_at(op, j) by {
            assert(pp.cells()[j] == if j < npp {
                op.cells()[j]
            } else {
                pp.cells()[npp]
            });
        }
        assert forall|j: int| 0 <= j <= n_keys(bp) implies #[trigger] child_at(bp, j) == child_at(ob, j + 1) by {
            if j < n_keys(bp) {
                assert(bp.cells()[j] == ob.cells()[j + 1]);
            }
        }
        assert forall|j: int| 0 < j <= nb implies #[trigger] child_at(ob, j) != fc by {
            lemma_kids_distinct(pages, g, b, 0, j);
        }
        assert forall|j: int| 0 <= j <= npp implies #[trigger] child_at(op, j) != fc by {
            assert(g.parent[child_at(op, j)] == p);
        }
    }
    // page u
    assert(node_ok(pages2, g2, u)) by {
        assert(pages2[u] == up);
        assert(keys_strictly_sorted(up.cells())) by {
            assert forall|i: int, j: int| 0 <= i < j < n_keys(up) implies #[trigger] up.cells()[i].key
                < #[trigger] up.cells()[j].key by {
                assert(up.cells()[i].key == key_at(up, i));
                assert(up.cells()[j].key == key_at(up, j));
                assert(key_at(ou, i) < key_at(ou, j));
                if i == k && j > k + 1 {
                    assert(key_at(ou, k + 1) <= key_at(ou, j));
                }
                if j == k && i < k {
                    assert(key_at(ou, i) < key_at(ou, k));
                }
            }
        }
        assert forall|j: int| 0 <= j < n_keys(up) implies within(
            #[trigger] key_at(up, j),
            g2.lo[u],
            g2.hi[u],
        ) by {
            assert(within(key_at(ou, j), g.lo[u], g.hi[u]));
        }
        assert forall|i: int| 0 <= i <= n_keys(up) implies {
            let c = #[trigger] child_at(up, i);
            &&& pages2.contains_key(c)
            &&& g2.level.contains_key(c)
            &&& g2.parent.contains_key(c)
            &&& g2.level[c] + 1 == g2.level[u]
            &&& g2.parent[c] == u
            &&& g2.lo[c] == child_lo(up, g2.lo[u], i)
            &&& g2.hi[c] == child_hi(up, g2.hi[u], i)
        } by {
            let c = child_at(ou, i);
            assert(child_at(up, i) == c);
            assert(c != fc || leaf) by {
                if !leaf && c == fc {
                    assert(g.parent[fc] == b);
                }
            }
            if i == k {
                assert(c == p);
            } else if i == k + 1 {
                assert(c == b);
            } else {
                assert(c != p) by {
                    if i < k {
                        lemma_kids_distinct(pages, g, u, i, k);
                    } else {
                        lemma_kids_distinct(pages, g, u, k, i);
                    }
                }
                assert(c != b) by {
                    if i < k + 1 {
                        lemma_kids_distinct(pages, g, u, i, k + 1);
                    } else {
                        lemma_kids_distinct(pages, g, u, k + 1, i);
                    }
                }
            }
        }
    }
    // page p
    assert(node_ok(pages2, g2, p)) by {
        assert(pages2[p] == pp);
        assert(keys_strictly_sorted(pp.cells())) by {
            assert forall|i: int, j: int| 0 <= i < j < n_keys(pp) implies #[trigger] pp.cells()[i].key
                < #[trigger] pp.cells()[j].key by {
                assert(pp.cells()[i].key == key_at(pp, i));
                assert(pp.cells()[j].key == key_at(pp, j));
                assert(within(key_at(op, i), g.lo[p], g.hi[p]));
                if j < npp {
                    assert(key_at(op, i) < key_at(op, j));
                }
            }
        }
        assert forall|j: int| 0 <= j < n_keys(pp) implies within(
            #[trigger] key_at(pp, j),
            g2.lo[p],
            g2.hi[p],
        ) by {
            if j < npp {
                assert(within(key_at(op, j), g.lo[p], g.hi[p]));
            } else {
                if npp > 0 {
                    assert(within(key_at(op, 0), g.lo[p], g.hi[p]));
                }
            }
        }
        if !leaf {
            assert forall|i: int| 0 <= i <= n_keys(pp) implies {
                let c = #[trigger] child_at(pp, i);
                &&& pages2.contains_key(c)
                &&& g2.level.contains_key(c)
                &&& g2.parent.contains_key(c)
                &&& g2.level[c] + 1 == g2.level[p]
                &&& g2.parent[c] == p
                &&& g2.lo[c] == child_lo(pp, g2.lo[p], i)
                &&& g2.hi[c] == child_hi(pp, g2.hi[p], i)
            } by {
                if i <= npp {
                    let c = child_at(op, i);
                    assert(child_at(pp, i) == c);
                    assert(c != fc);
                    assert(c != p && c != b && c != u) by {
                        assert(g.level[c] + 1 == g.level[p]);
                    }
                } else {
                    assert(fc != p && fc != b && fc != u) by {
                        assert(g.level[fc] + 1 == g.level[b]);
                    }
                }
            }
        }
    }
    // page b
    assert(node_ok(pages2, g2, b)) by {
        assert(pages2[b] == bp);
        assert(keys_strictly_sorted(bp.cells())) by {
            assert forall|i: int, j: int| 0 <= i < j < n_keys(bp) implies #[trigger] bp.cells()[i].key
                < #[trigger] bp.cells()[j].key by {
                assert(bp.cells()[i].key == key_at(ob, i + 1));
                assert(bp.cells()[j].key == key_at(ob, j + 1));
            }
        }
        assert forall|j: int| 0 <= j < n_keys(bp) implies within(
            #[trigger] key_at(bp, j),
            g2.lo[b],
            g2.hi[b],
        ) by {
            assert(within(key_at(ob, j + 1), g.lo[b], g.hi[b]));
            assert(sf < key_at(ob, j + 1));
        }
        if !leaf {
            assert forall|i: int| 0 <= i <= n_keys(bp) implies {
                let c = #[trigger] child_at(bp, i);
                &&& pages2.contains_key(c)
                &&& g2.level.contains_key(c)
                &&& g2.parent.contains_key(c)
                &&& g2.level[c] + 1 == g2.level[b]
                &&& g2.parent[c] == b
                &&& g2.lo[c] == child_lo(bp, g2.lo[b], i)
                &&& g2.hi[c] == child_hi(bp, g2.hi[b], i)
            } by {
                let c = child_at(ob, i + 1);
                assert(child_at(bp, i) == c);
                assert(c != fc);
                assert(c != p && c != b && c != u) by {
                    assert(g.level[c] + 1 == g.level[b]);
                }
            }
        }
    }
    // the other pages
    assert forall|q: u32| #[trigger] pages2.contains_key(q) implies node_ok(pages2, g2, q) by {
        if q != u && q != p && q != b {
            assert(node_ok(pages, g, q));
            let pq = pages[q];
            if !is_leaf(pq) {
                assert forall|i: int| 0 <= i <= n_keys(pq) implies {
                    let c = #[trigger] child_at(pq, i);
                    &&& pages2.contains_key(c)
                    &&& g2.level.contains_key(c)
                    &&& g2.parent.contains_key(c)
                    &&& g2.level[c] == g.level[c]
                    &&& g2.parent[c] == g.parent[c]
                    &&& g2.lo[c] == g.lo[c]
                    &&& g2.hi[c] == g.hi[c]
                } by {
                    let c = child_at(pq, i);
                    assert(g.parent[c] == q);
                }
            }
            lemma_node_same(pages, g, pages2, g2, q);
        }
    }
    assert forall|q: u32| #[trigger] pages2.contains_key(q) && q != root implies {
        &&& g2.level[q] < g2.level[root]
        &&& pages2.contains_key(g2.parent[q])
        &&& !is_leaf(pages2[g2.parent[q]])
        &&& exists|j: int|
            0 <= j <= n_keys(pages2[g2.parent[q]]) && #[trigger] child_at(pages2[g2.parent[q]], j)
                == q
    } by {
        if !leaf && q == fc {
            assert(g2.parent[q] == p);
            assert(child_at(pp, npp + 1) == q);
        } else {
            let pq = g.parent[q];
            assert(g2.parent[q] == pq);
            assert(pages.contains_key(pq));
            let j = choose|j: int| 0 <= j <= n_keys(pages[pq]) && #[trigger] child_at(pages[pq], j) == q;
            assert(child_at(pages[pq], j) == q);
            if pq == u {
                assert(child_at(up, j) == q);
            } else if pq == p {
                assert(child_at(pp, j) == q);
            } else if pq == b {
                assert(j > 0) by {
                    if j == 0 {
                        assert(q == fc);
                    }
                }
                assert(child_at(bp, j - 1) == q);
            }
        }
    }
    assert(shape_ok(pages2, g2, root));
    assert forall|q: u32| #[trigger] pages2.contains_key(q) implies occupancy_ok(pages2, g2, root, q)
        && 1 <= q < next by {
        if q != p {
            assert(occupancy_ok(pages, g, root, q));
        }
    }
    assert(all_keys(pages2) =~= all_keys(pages)) by {
        assert forall|x: i64| all_keys(pages2).contains(x) implies all_keys(pages).contains(x) by {
            let q = choose|q: u32| #[trigger] pages2.contains_key(q) && page_keys(pages2[q]).contains(x);
            let j = choose|j: int| 0 <= j < n_keys(pages2[q]) && key_at(pages2[q], j) == x;
            if q == b {
                assert(key_at(ob, j + 1) == x);
                assert(page_keys(ob).contains(x));
            } else if q == p {
                if j == npp {
                    assert(page_keys(ou).contains(x));
                    assert(pages.contains_key(u));
                } else {
                    assert(page_keys(op).contains(x));
                }
            } else if q == u {
                if j == k {
                    assert(page_keys(ob).contains(x));
                    assert(pages.contains_key(b));
                } else {
                    assert(page_keys(ou).contains(x));
                }
            } else {
                assert(page_keys(pages[q]).contains(x));
            }
        }
        assert forall|x: i64| all_keys(pages).contains(x) implies all_keys(pages2).contains(x) by {
            let q = choose|q: u32| #[trigger] pages.contains_key(q) && page_keys(pages[q]).contains(x);
            let j = choose|j: int| 0 <= j < n_keys(pages[q]) && key_at(pages[q], j) == x;
            if q == b {
                if j == 0 {
                    assert(key_at(up, k) == x);
                    assert(page_keys(pages2[u]).contains(x));
                    assert(pages2.contains_key(u));
                } else {
                    assert(key_at(bp, j - 1) == x);
                    assert(page_keys(pages2[b]).contains(x));
                    assert(pages2.contains_key(b));
                }
            } else if q == p {
                assert(key_at(pp, j) == x);
                assert(page_keys(pages2[p]).contains(x));
                assert(pages2.contains_key(p));
            } else if q == u {
                if j == k {
                    assert(key_at(pp, npp) == x);
                    assert(page_keys(pages2[p]).contains(x));
                    assert(pages2.contains_key(p));
                } else {
                    assert(key_at(up, j) == x);
                    assert(page_keys(pages2[u]).contains(x));
                    assert(pages2.contains_key(u));
                }
            } else {
                assert(page_keys(pages2[q]).contains(x));
                assert(pages2.contains_key(q));
            }
        }
    }
}


/// Merging: pages `l` and `r` (children `k` and `k + 1` of `u`, one of them
/// `x` with one key too few) become one page `l` holding the keys of `l`,
/// the separating key of `u` and the keys of `r`; `u` loses that key and
/// its pointer to `r`.
#[verifier::opaque]
pub open spec fn merge_pre(
    pages: Map<u32, Page>,
    g: Shape,
    root: u32,
    next: u32,
    l: u32,
    r: u32,
    u: u32,
    k: int,
    x: u32,
) -> bool {
    &&& tree_ok(pages, g, root, next, Some(x), n_keys(pages[x]))
    &&& x == l || x == r
    &&& pages.contains_key(l)
    &&& pages.contains_key(r)
    &&& pages.contains_key(u)
    &&& x != root
    &&& !is_leaf(pages[u])
    &&& 0 <= k < n_keys(pages[u])
    &&& child_at(pages[u], k) == l
    &&& child_at(pages[u], k + 1) == r
    &&& DEGREE - 1 <= n_keys(pages[l]) + 1 + n_keys(pages[r]) <= 2 * DEGREE - 2
}

/// The ghost bookkeeping after a merge: the children of `r` move to `l`,
/// which takes over the upper bound of `r`.
pub open spec fn merge_shape(g: Shape, l: u32, r: u32) -> Shape {
    Shape {
        level: g.level,
        parent: g.parent.map_values(|v: u32| if v == r { l } else { v }),
        lo: g.lo,
        hi: g.hi.insert(l, g.hi[r]),
    }
}

/// A merge gives a tree whose only page with too few keys may be `u`, with
/// the same keys and levels, and the same parents for all pages at the level
/// of `u` and above.
#[verifier::rlimit(100)]
#[verifier::spinoff_prover]
proof fn lemma_merge(
    pages: Map<u32, Page>,
    g: Shape,
    root: u32,
    next: u32,
    l: u32,
    r: u32,
    u: u32,
    k: int,
    x: u32,
    lp: Page,
    up: Page,
)
    requires
        merge_pre(pages, g, root, next, l, r, u, k, x),
        up.wf(),
        compact(up),
        !is_leaf(up),
        keys_of(up) == keys_of(pages[u]).remove(k),
        kids_of(up) == kids_of(pages[u]).remove(k + 1),
        lp.wf(),
        compact(lp),
        is_leaf(lp) == is_leaf(pages[l]),
        !is_leaf(lp) ==> lp.hdr().rightmost_ptr == pages[r].hdr().rightmost_ptr,
        lp.cells() == pages[l].cells().push(
            Cell {
                key: key_at(pages[u], k),
                c_ptr: if is_leaf(pages[l]) {
                    None
                } else {
                    Some(pages[l].hdr().rightmost_ptr)
                },
            },
        ) + pages[r].cells(),
    ensures
        ({
            let pages2 = pages.remove(r).insert(l, lp).insert(u, up);
            let g2 = merge_shape(g, l, r);
            &&& tree_ok(pages2, g2, root, next, Some(u), n_keys(up))
            &&& n_keys(up) == n_keys(pages[u]) - 1
            &&& all_keys(pages2) == all_keys(pages)
            &&& g2.level == g.level
            &&& forall|q: u32|
                pages.contains_key(q) && q != root && g.level[q] >= g.level[u] ==> g2.parent[q]
                    == g.parent[q]
        }),
{
    reveal(merge_pre);
    let pages2 = pages.remove(r).insert(l, lp).insert(u, up);
    let g2 = merge_shape(g, l, r);
    let ol = pages[l];
    let or = pages[r];
    let ou = pages[u];
    let nl = n_keys(ol);
    let nr = n_keys(or);
    let nu = n_keys(ou);
    let pk = key_at(ou, k);
    let leaf = is_leaf(ol);
    assert(node_ok(pages, g, u));
    assert(node_ok(pages, g, l));
    assert(node_ok(pages, g, r));
    assert(l != r) by {
        lemma_kids_distinct(pages, g, u, k, k + 1);
    }
    assert(u != l && u != r) by {
        assert(g.level[l] + 1 == g.level[u]);
        assert(g.level[r] + 1 == g.level[u]);
    }
    assert(r != root) by {
        assert(g.level[r] < g.level[u]);
        if u != root {
            assert(g.level[u] < g.level[root]);
        }
    }
    assert(g.parent[l] == u && g.parent[r] == u);
    assert(is_leaf(or) == leaf);
    assert(g.hi[l] == Some(pk));
    assert(g.lo[r] == Some(pk));
    lemma_child_bounds(pages, g, u, k);
    lemma_child_bounds(pages, g, u, k + 1);
    assert(within(pk, g.lo[u], g.hi[u]));
    lemma_views(ou);
    lemma_views(up);
    assert(n_keys(up) == nu - 1);
    assert(n_keys(lp) == nl + 1 + nr);
    assert(pages2[l] == lp && pages2[u] == up);
    // keys and children of the merged page, by position
    assert forall|j: int| 0 <= j < nl implies #[trigger] key_at(lp, j) == key_at(ol, j) by {}
    assert(key_at(lp, nl) == pk);
    assert forall|j: int| nl < j < nl + 1 + nr implies #[trigger] key_at(lp, j) == key_at(or, j - nl - 1) by {}
    if !leaf {
        assert forall|j: int| 0 <= j <= nl implies #[trigger] child_at(lp, j) == child_at(ol, j) by {}
        assert forall|j: int| nl < j <= nl + 1 + nr implies #[trigger] child_at(lp, j) == child_at(
            or,
            j - nl - 1,
        ) by {
            if j < nl + 1 + nr {
                assert(lp.cells()[j] == or.cells()[j - nl - 1]);
            }
        }
    }
    // keys and children of the new `u`, by position
    assert forall|j: int| 0 <= j < nu - 1 implies #[trigger] key_at(up, j) == (if j < k {
        key_at(ou, j)
    } else {
        key_at(ou, j + 1)
    }) by {
        assert(keys_of(up)[j] == key_at(up, j));
    }
    assert forall|j: int| 0 <= j <= nu - 1 implies #[trigger] child_at(up, j) == (if j <= k {
        child_at(ou, j)
    } else {
        child_at(ou, j + 1)
    }) by {
        assert(kids_of(up)[j] == child_at(up, j));
    }
    // the children of `r` become children of `l`
    assert forall|q: u32| pages.contains_key(q) && q != root implies #[trigger] g2.parent[q] == (if g.parent[q]
        == r {
        l
    } else {
        g.parent[q]
    }) by {
        assert(g.parent.contains_key(q)) by {
            let pq = g.parent[q];
            let j = choose|j: int| 0 <= j <= n_keys(pages[pq]) && #[trigger] child_at(pages[pq], j) == q;
            assert(node_ok(pages, g, pq));
            assert(child_at(pages[pq], j) == q);
        }
    }
    // page l
    assert(node_ok(pages2, g2, l)) by {
        assert(keys_strictly_sorted(lp.cells())) by {
            assert forall|i: int, j: int| 0 <= i < j < n_keys(lp) implies #[trigger] lp.cells()[i].key
                < #[trigger] lp.cells()[j].key by {
                assert(lp.cells()[i].key == key_at(lp, i));
                assert(lp.cells()[j].key == key_at(lp, j));
                if i < nl {
                    assert(within(key_at(ol, i), g.lo[l], g.hi[l]));
                }
                if j > nl {
                    assert(within(key_at(or, j - nl - 1), g.lo[r], g.hi[r]));
                }
                if i < nl && j < nl {
                    assert(key_at(ol, i) < key_at(ol, j));
                }
                if i > nl && j > nl {
                    assert(key_at(or, i - nl - 1) < key_at(or, j - nl - 1));
                }
            }
        }
        assert forall|j: int| 0 <= j < n_keys(lp) implies within(
            #[trigger] key_at(lp, j),
            g2.lo[l],
            g2.hi[l],
        ) by {
            if j < nl {
                assert(within(key_at(ol, j), g.lo[l], g.hi[l]));
            } else if j > nl {
                assert(within(key_at(or, j - nl - 1), g.lo[r], g.hi[r]));
            }
        }
        if !leaf {
            assert forall|i: int| 0 <= i <= n_keys(lp) implies {
                let c = #[trigger] child_at(lp, i);
                &&& pages2.contains_key(c)
                &&& g2.level.contains_key(c)
                &&& g2.parent.contains_key(c)
                &&& g2.level[c] + 1 == g2.level[l]
                &&& g2.parent[c] == l
                &&& g2.lo[c] == child_lo(lp, g2.lo[l], i)
                &&& g2.hi[c] == child_hi(lp, g2.hi[l], i)
            } by {
                if i <= nl {
                    let c = child_at(ol, i);
                    assert(c != r && c != u && c != l) by {
                        assert(g.level[c] + 1 == g.level[l]);
                    }
                    assert(c != root);
                    assert(g2.parent[c] == l);
                } else {
                    let c = child_at(or, i - nl - 1);
                    assert(c != r && c != u && c != l) by {
                        assert(g.level[c] + 1 == g.level[r]);
                    }
                    assert(c != root);
                    assert(g2.parent[c] == l);
                }
            }
        }
    }
    // page u
    assert(node_ok(pages2, g2, u)) by {
        assert(keys_strictly_sorted(up.cells())) by {
            assert forall|i: int, j: int| 0 <= i < j < n_keys(up) implies #[trigger] up.cells()[i].key
                < #[trigger] up.cells()[j].key by {
                assert(up.cells()[i].key == key_at(up, i));
                assert(up.cells()[j].key == key_at(up, j));
                let i0 = if i < k { i } else { i + 1 };
                let j0 = if j < k { j } else { j + 1 };
                assert(key_at(ou, i0) < key_at(ou, j0));
            }
        }
        assert forall|j: int| 0 <= j < n_keys(up) implies within(
            #[trigger] key_at(up, j),
            g2.lo[u],
            g2.hi[u],
        ) by {
            let j0 = if j < k { j } else { j + 1 };
            assert(within(key_at(ou, j0), g.lo[u], g.hi[u]));
        }
        assert forall|i: int| 0 <= i <= n_keys(up) implies {
            let c = #[trigger] child_at(up, i);
            &&& pages2.contains_key(c)
            &&& g2.level.contains_key(c)
            &&& g2.parent.contains_key(c)
            &&& g2.level[c] + 1 == g2.level[u]
            &&& g2.parent[c] == u
            &&& g2.lo[c] == child_lo(up, g2.lo[u], i)
            &&& g2.hi[c] == child_hi(up, g2.hi[u], i)
        } by {
            let i0 = if i <= k { i } else { i + 1 };
            let c = child_at(ou, i0);
            assert(child_at(up, i) == c);
            assert(c != r) by {
                lemma_kids_distinct(pages, g, u, if i0 < k + 1 { i0 } else { k + 1 }, if i0 < k + 1 { k + 1 } else { i0 });
            }
            assert(c != root);
            assert(g2.parent[c] == u);
            if i == k {
                assert(c == l);
            } else {
                assert(c != l) by {
                    lemma_kids_distinct(pages, g, u, if i0 < k { i0 } else { k }, if i0 < k { k } else { i0 });
                }
            }
        }
    }
    // the other pages
    assert forall|q: u32| #[trigger] pages2.contains_key(q) implies node_ok(pages2, g2, q) by {
        if q != u && q != l {
            assert(q != r);
            assert(pages.contains_key(q));
            assert(node_ok(pages, g, q));
            let pq = pages[q];
            if !is_leaf(pq) {
                assert forall|i: int| 0 <= i <= n_keys(pq) implies {
                    let c = #[trigger] child_at(pq, i);
                    &&& pages2.contains_key(c)
                    &&& g2.level.contains_key(c)
                    &&& g2.parent.contains_key(c)
                    &&& g2.level[c] == g.level[c]
                    &&& g2.parent[c] == g.parent[c]
                    &&& g2.lo[c] == g.lo[c]
                    &&& g2.hi[c] == g.hi[c]
                } by {
                    let c = child_at(pq, i);
                    assert(g.parent[c] == q);
                    assert(c != r && c != l);
                    assert(c != root) by {
                        assert(g.level[c] + 1 == g.level[q]);
                        if q != root {
                            assert(g.level[q] < g.level[root]);
                        }
                    }
                }
            }
            lemma_node_same(pages, g, pages2, g2, q);
        }
    }
    assert forall|q: u32| #[trigger] pages2.contains_key(q) && q != root implies {
        &&& g2.level[q] < g2.level[root]
        &&& pages2.contains_key(g2.parent[q])
        &&& !is_leaf(pages2[g2.parent[q]])
        &&& exists|j: int|
            0 <= j <= n_keys(pages2[g2.parent[q]]) && #[trigger] child_at(pages2[g2.parent[q]], j)
                == q
    } by {
        assert(pages.contains_key(q));
        let pq = g.parent[q];
        let j = choose|j: int| 0 <= j <= n_keys(pages[pq]) && #[trigger] child_at(pages[pq], j) == q;
        assert(child_at(pages[pq], j) == q);
        assert(node_ok(pages, g, pq));
        if pq == r {
            assert(g2.parent[q] == l);
            assert(child_at(lp, nl + 1 + j) == q);
        } else {
            assert(g2.parent[q] == pq);
            if pq == u {
                assert(j != k + 1);
                if j <= k {
                    assert(child_at(up, j) == q);
                } else {
                    assert(child_at(up, j - 1) == q);
                }
            } else if pq == l {
                assert(child_at(lp, j) == q);
            } else {
                assert(pages2[pq] == pages[pq]);
            }
        }
    }
    assert(shape_ok(pages2, g2, root)) by {
        assert(root != r);
        assert(root != l) by {
            assert(g.level[l] < g.level[u]);
            if u != root {
                assert(g.level[u] < g.level[root]);
            }
        }
    }
    assert forall|q: u32| #[trigger] pages2.contains_key(q) && q != u implies occupancy_ok(
        pages2,
        g2,
        root,
        q,
    ) by {
        if q != l {
            assert(occupancy_ok(pages, g, root, q));
        }
    }
    assert forall|q: u32| #[trigger] pages2.contains_key(q) implies 1 <= q < next by {
        assert(pages.contains_key(q));
    }
    assert forall|q: u32|
        pages.contains_key(q) && q != root && g.level[q] >= g.level[u] implies g2.parent[q]
            == g.parent[q] by {
        let pq = g.parent[q];
        let j = choose|j: int| 0 <= j <= n_keys(pages[pq]) && #[trigger] child_at(pages[pq], j) == q;
        assert(node_ok(pages, g, pq));
        assert(child_at(pages[pq], j) == q);
        assert(pq != r);
    }
    assert(all_keys(pages2) =~= all_keys(pages)) by {
        assert forall|y: i64| all_keys(pages2).contains(y) implies all_keys(pages).contains(y) by {
            let q = choose|q: u32| #[trigger] pages2.contains_key(q) && page_keys(pages2[q]).contains(y);
            let j = choose|j: int| 0 <= j < n_keys(pages2[q]) && key_at(pages2[q], j) == y;
            if q == l {
                if j < nl {
                    assert(page_keys(ol).contains(y));
                } else if j == nl {
                    assert(page_keys(ou).contains(y));
                    assert(pages.contains_key(u));
                } else {
                    assert(key_at(or, j - nl - 1) == y);
                    assert(page_keys(or).contains(y));
                    assert(pages.contains_key(r));
                }
            } else if q == u {
                let j0 = if j < k { j } else { j + 1 };
                assert(key_at(ou, j0) == y);
                assert(page_keys(ou).contains(y));
            } else {
                assert(page_keys(pages[q]).contains(y));
            }
        }
        assert forall|y: i64| all_keys(pages).contains(y) implies all_keys(pages2).contains(y) by {
            let q = choose|q: u32| #[trigger] pages.contains_key(q) && page_keys(pages[q]).contains(y);
            let j = choose|j: int| 0 <= j < n_keys(pages[q]) && key_at(pages[q], j) == y;
            if q == l {
                assert(key_at(lp, j) == y);
                assert(page_keys(pages2[l]).contains(y));
                assert(pages2.contains_key(l));
            } else if q == r {
                assert(key_at(lp, nl + 1 + j) == y);
                assert(page_keys(pages2[l]).contains(y));
                assert(pages2.contains_key(l));
            } else if q == u {
                if j == k {
                    assert(key_at(lp, nl) == y);
                    assert(page_keys(pages2[l]).contains(y));
                    assert(pages2.contains_key(l));
                } else if j < k {
                    assert(key_at(up, j) == y);
                    assert(page_keys(pages2[u]).contains(y));
                    assert(pages2.contains_key(u));
                } else {
                    assert(key_at(up, j - 1) == y);
                    assert(page_keys(pages2[u]).contains(y));
                    assert(pages2.contains_key(u));
                }
            } else {
                assert(page_keys(pages2[q]).contains(y));
                assert(pages2.contains_key(q));
            }
        }
    }
}


/// The index of child `c` among the children of page `p`.
pub open spec fn kid_index(p: Page, c: u32) -> int {
    choose|i: int| 0 <= i <= n_keys(p) && child_at(p, i) == c
}

/// `pages2` is `pages` after page `p` borrowed from its left sibling `a`
/// through their parent `u` (separating key `k`): the last key of `a` went up
/// into `u`, the separating key came down to the front of `p` (with, for
/// internal pages, the rightmost child of `a`), nothing else changed.
pub open spec fn borrowed_left(
    pages: Map<u32, Page>,
    pages2: Map<u32, Page>,
    p: u32,
    a: u32,
    u: u32,
    k: int,
) -> bool {
    let (ou, oa, op) = (pages[u], pages[a], pages[p]);
    &&& pages2 == pages.insert(u, pages2[u]).insert(p, pages2[p]).insert(a, pages2[a])
    &&& keys_of(pages2[u]) == keys_of(ou).update(k, key_at(oa, n_keys(oa) - 1))
    &&& kids_of(pages2[u]) == kids_of(ou)
    &&& keys_of(pages2[p]) == seq![key_at(ou, k)] + keys_of(op)
    &&& keys_of(pages2[a]) == keys_of(oa).drop_last()
    &&& !is_leaf(op) ==> kids_of(pages2[p]) == seq![oa.hdr().rightmost_ptr] + kids_of(op)
    &&& !is_leaf(op) ==> kids_of(pages2[a]) == kids_of(oa).drop_last()
}

/// `pages2` is `pages` after page `p` borrowed from its right sibling `b`
/// through their parent `u` (separating key `k`): the first key of `b` went
/// up into `u`, the separating key came down to the end of `p` (with, for
/// internal pages, the first child of `b`), nothing else changed.
pub open spec fn borrowed_right(
    pages: Map<u32, Page>,
    pages2: Map<u32, Page>,
    p: u32,
    b: u32,
    u: u32,
    k: int,
) -> bool {
    let (ou, ob, op) = (pages[u], pages[b], pages[p]);
    &&& pages2 == pages.insert(u, pages2[u]).insert(p, pages2[p]).insert(b, pages2[b])
    &&& keys_of(pages2[u]) == keys_of(ou).update(k, key_at(ob, 0))
    &&& kids_of(pages2[u]) == kids_of(ou)
    &&& keys_of(pages2[p]) == keys_of(op).push(key_at(ou, k))
    &&& keys_of(pages2[b]) == keys_of(ob).subrange(1, n_keys(ob))
    &&& !is_leaf(op) ==> kids_of(pages2[p]) == kids_of(op).push(child_at(ob, 0))
    &&& !is_leaf(op) ==> kids_of(pages2[b]) == kids_of(ob).subrange(1, n_keys(ob) + 1)
}

/// Neither sibling of the last page of the descent `bc` can spare a key,
/// so mending that page merges it with a sibling.
pub open spec fn mend_merges(pages: Map<u32, Page>, bc: Seq<u32>) -> bool {
    let up = pages[bc[bc.len() - 2]];
    let k = kid_index(up, bc.last());
    &&& !(k > 0 && n_keys(pages[child_at(up, k - 1)]) > DEGREE - 1)
    &&& !(k < n_keys(up) && n_keys(pages[child_at(up, k + 1)]) > DEGREE - 1)
}

/// How the last page `p` of the descent `bc` is mended when it is not the
/// root and holds too few keys (its parent `u` being the page before it):
/// it borrows from its left sibling if that can spare a key, else from its
/// right sibling if that can, else it is merged with its left sibling (and
/// dropped) if it has one, else its right sibling is merged into it (and
/// dropped).
#[verifier::opaque]
pub open spec fn mended(pages: Map<u32, Page>, root: u32, pages2: Map<u32, Page>, root2: u32, bc: Seq<u32>) -> bool {
    bc.len() >= 2 && bc.last() != root && n_keys(pages[bc.last()]) < DEGREE - 1 ==> {
        let p = bc.last();
        let u = bc[bc.len() - 2];
        let up = pages[u];
        let k = kid_index(up, p);
        if k > 0 && n_keys(pages[child_at(up, k - 1)]) > DEGREE - 1 {
            borrowed_left(pages, pages2, p, child_at(up, k - 1), u, k - 1) && root2 == root
        } else if k < n_keys(up) && n_keys(pages[child_at(up, k + 1)]) > DEGREE - 1 {
            borrowed_right(pages, pages2, p, child_at(up, k + 1), u, k) && root2 == root
        } else if k > 0 {
            merged_into(pages, pages2, child_at(up, k - 1), p, key_at(up, k - 1))
        } else {
            merged_into(pages, pages2, p, child_at(up, k + 1), key_at(up, k))
        }
    }
}

/// When the last page of `bc` is the root or holds enough keys, `mended`
/// asks nothing.
proof fn lemma_mended_idle(pages: Map<u32, Page>, root: u32, pages2: Map<u32, Page>, root2: u32, bc: Seq<u32>)
    requires
        !(bc.len() >= 2 && bc.last() != root && n_keys(pages[bc.last()]) < DEGREE - 1),
    ensures
        mended(pages, root, pages2, root2, bc),
{
    reveal(mended);
}

/// One round of `handle_underflow` that merged: mending the last page of
/// `bc` took the tree from `t0` to `tm`, and mending the parent onwards took
/// it to `tf`.
proof fn lemma_underflow_step(t0: Btree, tm: Btree, tf: Btree, bc: Seq<u32>)
    requires
        t0.underflowing(bc),
        bc.len() >= 2,
        bc.last() != t0.root_id,
        n_keys(t0.pager.pages()[bc.last()]) < DEGREE - 1,
        t0.mended_into(tm, bc),
        mend_merges(t0.pager.pages(), bc),
        forall|id: u32| #[trigger] tm.holds_page(id) ==> t0.holds_page(id),
        tm.shape@.level == t0.shape@.level,
        forall|id: u32|
            #[trigger] t0.pager.pages().contains_key(id) && t0.shape@.level[id] < t0.shape@.level[bc.last()]
                ==> tm.pager.pages().contains_key(id) && tm.pager.pages()[id] == t0.pager.pages()[id],
        forall|id: u32| #[trigger] tf.holds_page(id) ==> tm.holds_page(id),
        forall|id: u32|
            #[trigger] tm.pager.pages().contains_key(id) && tm.level_of(id) < tm.level_of(bc.drop_last().last())
                ==> tf.pager.pages().contains_key(id) && tf.pager.pages()[id] == tm.pager.pages()[id],
    ensures
        t0.mended_into(tf, bc),
        forall|id: u32|
            #[trigger] t0.pager.pages().contains_key(id) && t0.level_of(id) < t0.level_of(bc.last())
                ==> tf.pager.pages().contains_key(id) && tf.pager.pages()[id] == t0.pager.pages()[id],
{
    let pages = t0.pager.pages();
    let g = t0.shape@;
    let root = t0.root_id;
    let page_id = bc.last();
    let u = bc[bc.len() - 2];
    let up = pages[u];
    assert(bc.drop_last().last() == u);
    assert(forall|j: int| 0 <= j <= n_keys(up) ==> #[trigger] g.level[child_at(up, j)] < g.level[u]) by {
        assert(pages.contains_key(u));
        assert(node_ok(pages, g, u));
    }
    assert(0 <= kid_index(up, page_id) <= n_keys(up) && child_at(up, kid_index(up, page_id)) == page_id) by {
        assert(g.parent[bc[bc.len() - 2 + 1]] == bc[bc.len() - 2]);
        assert(pages.contains_key(page_id));
        assert(node_ok(pages, g, u));
        let j = choose|j: int| 0 <= j <= n_keys(pages[g.parent[page_id]]) && #[trigger] child_at(pages[g.parent[page_id]], j) == page_id;
        assert(child_at(up, j) == page_id);
    }
    assert(g.level[page_id] < g.level[u]) by {
        assert(g.level[bc[bc.len() - 2]] + (bc.len() - 2) == g.level[root]);
        assert(g.level[bc[bc.len() - 1]] + (bc.len() - 1) == g.level[root]);
    }
    let pm = tm.pager.pages();
    let pf = tf.pager.pages();
    assert(mended(pages, root, pm, tm.root_id, bc));
    assert forall|id: u32| #[trigger] pf.contains_key(id) implies pm.contains_key(id) by {
        assert(tf.holds_page(id));
    }
    assert forall|id: u32| #[trigger] pm.contains_key(id) && g.level[id] < g.level[bc[bc.len() - 2]] implies pf.contains_key(id)
        && pf[id] == pm[id] by {
        assert(tm.level_of(id) == g.level[id]);
        assert(tm.level_of(bc.drop_last().last()) == g.level[u]);
    }
    lemma_mended_after(pages, root, pm, tm.root_id, pf, tf.root_id, bc, g.level);
    assert forall|id: u32|
        #[trigger] pages.contains_key(id) && t0.level_of(id) < t0.level_of(page_id) implies tf.pager.pages().contains_key(id)
            && tf.pager.pages()[id] == pages[id] by {
        assert(tm.pager.pages().contains_key(id));
    }
}

/// A merge described by `mended` stays described once the pages that
/// follow it only lose pages and keep those below the parent's level.
proof fn lemma_mended_after(
    pages: Map<u32, Page>,
    root: u32,
    pm: Map<u32, Page>,
    rm: u32,
    pf: Map<u32, Page>,
    rf: u32,
    bc: Seq<u32>,
    lv: Map<u32, nat>,
)
    requires
        bc.len() >= 2,
        mended(pages, root, pm, rm, bc),
        mend_merges(pages, bc),
        forall|id: u32| #[trigger] pf.contains_key(id) ==> pm.contains_key(id),
        forall|id: u32|
            #[trigger] pm.contains_key(id) && lv[id] < lv[bc[bc.len() - 2]] ==> pf.contains_key(id)
                && pf[id] == pm[id],
        forall|j: int|
            0 <= j <= n_keys(pages[bc[bc.len() - 2]]) ==> #[trigger] lv[child_at(pages[bc[bc.len() - 2]], j)]
                < lv[bc[bc.len() - 2]],
        0 <= kid_index(pages[bc[bc.len() - 2]], bc.last()) <= n_keys(pages[bc[bc.len() - 2]]),
        child_at(pages[bc[bc.len() - 2]], kid_index(pages[bc[bc.len() - 2]], bc.last())) == bc.last(),
    ensures
        mended(pages, root, pf, rf, bc),
{
    reveal(mended);
    let p = bc.last();
    let up = pages[bc[bc.len() - 2]];
    let k = kid_index(up, p);
    if bc.last() != root && n_keys(pages[bc.last()]) < DEGREE - 1 {
        if k > 0 {
            let l = child_at(up, k - 1);
            assert(lv[child_at(up, k - 1)] < lv[bc[bc.len() - 2]]);
            assert(pm.contains_key(l));
            if pf.contains_key(p) {
                assert(pm.contains_key(p));
            }
        } else {
            let r = child_at(up, k + 1);
            assert(lv[child_at(up, k)] < lv[bc[bc.len() - 2]]);
            assert(pm.contains_key(p));
            if pf.contains_key(r) {
                assert(pm.contains_key(r));
            }
        }
    }
}

/// In `pages2`, page `l` holds its keys, then the separating key `sep`,
/// then the keys of its right sibling `r`, which is gone (for internal
/// pages, the children of both in turn).
pub open spec fn merged_into(pages: Map<u32, Page>, pages2: Map<u32, Page>, l: u32, r: u32, sep: i64) -> bool {
    &&& !pages2.contains_key(r)
    &&& pages2.contains_key(l)
    &&& keys_of(pages2[l]) == keys_of(pages[l]).push(sep) + keys_of(pages[r])
    &&& !is_leaf(pages[l]) ==> kids_of(pages2[l]) == kids_of(pages[l]) + kids_of(pages[r])
}

/// What a borrow from the left does to the keys and children of the three
/// pages.
proof fn lemma_borrow_left_views(ou: Page, oa: Page, op: Page, up: Page, pp: Page, ap: Page, k: int)
    requires
        0 <= k < n_keys(ou),
        n_keys(oa) >= 1,
        up.hdr().rightmost_ptr == ou.hdr().rightmost_ptr,
        up.cells() == ou.cells().update(
            k,
            Cell { key: key_at(oa, n_keys(oa) - 1), c_ptr: ou.cells()[k].c_ptr },
        ),
        !is_leaf(pp) ==> pp.hdr().rightmost_ptr == op.hdr().rightmost_ptr,
        pp.cells() == seq![
            Cell {
                key: key_at(ou, k),
                c_ptr: if is_leaf(op) {
                    None
                } else {
                    Some(oa.hdr().rightmost_ptr)
                },
            },
        ] + op.cells(),
        is_leaf(pp) == is_leaf(op),
        ap.cells() == oa.cells().drop_last(),
        !is_leaf(ap) ==> ap.hdr().rightmost_ptr == child_at(oa, n_keys(oa) - 1),
    ensures
        keys_of(up) == keys_of(ou).update(k, key_at(oa, n_keys(oa) - 1)),
        kids_of(up) == kids_of(ou),
        keys_of(pp) == seq![key_at(ou, k)] + keys_of(op),
        keys_of(ap) == keys_of(oa).drop_last(),
        !is_leaf(op) ==> kids_of(pp) == seq![oa.hdr().rightmost_ptr] + kids_of(op),
        !is_leaf(ap) ==> kids_of(ap) == kids_of(oa).drop_last(),
{
    lemma_views(ou);
    lemma_views(up);
    lemma_views(oa);
    lemma_views(ap);
    lemma_views(op);
    lemma_views(pp);
    assert(keys_of(up) =~= keys_of(ou).update(k, key_at(oa, n_keys(oa) - 1)));
    assert(kids_of(up) =~= kids_of(ou)) by {
        assert forall|j: int| 0 <= j <= n_keys(up) implies #[trigger] kids_of(up)[j] == kids_of(ou)[j] by {
            if j < n_keys(up) {
                assert(up.cells()[j].c_ptr == ou.cells()[j].c_ptr);
            }
        }
    }
    assert(keys_of(pp) =~= seq![key_at(ou, k)] + keys_of(op)) by {
        assert forall|j: int| 0 <= j < n_keys(pp) implies #[trigger] keys_of(pp)[j] == (seq![
            key_at(ou, k),
        ] + keys_of(op))[j] by {
            if j > 0 {
                assert(pp.cells()[j] == op.cells()[j - 1]);
            }
        }
    }
    assert(keys_of(ap) =~= keys_of(oa).drop_last()) by {
        assert forall|j: int| 0 <= j < n_keys(ap) implies #[trigger] keys_of(ap)[j] == keys_of(
            oa,
        ).drop_last()[j] by {
            assert(ap.cells()[j] == oa.cells()[j]);
        }
    }
    if !is_leaf(op) {
        assert(kids_of(pp) =~= seq![oa.hdr().rightmost_ptr] + kids_of(op)) by {
            assert forall|j: int| 0 <= j <= n_keys(pp) implies #[trigger] kids_of(pp)[j] == (seq![
                oa.hdr().rightmost_ptr,
            ] + kids_of(op))[j] by {
                if 0 < j < n_keys(pp) {
                    assert(pp.cells()[j] == op.cells()[j - 1]);
                }
            }
        }
    }
    if !is_leaf(ap) {
        assert(kids_of(ap) =~= kids_of(oa).drop_last()) by {
            assert forall|j: int| 0 <= j <= n_keys(ap) implies #[trigger] kids_of(ap)[j] == kids_of(
                oa,
            ).drop_last()[j] by {
                if j < n_keys(ap) {
                    assert(ap.cells()[j] == oa.cells()[j]);
                }
            }
        }
    }
}

/// What a borrow from the right does to the keys and children of the three
/// pages.
proof fn lemma_borrow_right_views(ou: Page, ob: Page, op: Page, up: Page, pp: Page, bp: Page, k: int)
    requires
        0 <= k < n_keys(ou),
        n_keys(ob) >= 1,
        up.hdr().rightmost_ptr == ou.hdr().rightmost_ptr,
        up.cells() == ou.cells().update(k, Cell { key: key_at(ob, 0), c_ptr: ou.cells()[k].c_ptr }),
        is_leaf(pp) == is_leaf(op),
        !is_leaf(pp) ==> pp.hdr().rightmost_ptr == child_at(ob, 0),
        pp.cells() == op.cells().push(
            Cell {
                key: key_at(ou, k),
                c_ptr: if is_leaf(op) {
                    None
                } else {
                    Some(op.hdr().rightmost_ptr)
                },
            },
        ),
        bp.cells() == ob.cells().subrange(1, n_keys(ob)),
        !is_leaf(bp) ==> bp.hdr().rightmost_ptr == ob.hdr().rightmost_ptr,
    ensures
        keys_of(up) == keys_of(ou).update(k, key_at(ob, 0)),
        kids_of(up) == kids_of(ou),
        keys_of(pp) == keys_of(op).push(key_at(ou, k)),
        keys_of(bp) == keys_of(ob).subrange(1, n_keys(ob)),
        !is_leaf(op) ==> kids_of(pp) == kids_of(op).push(child_at(ob, 0)),
        !is_leaf(bp) ==> kids_of(bp) == kids_of(ob).subrange(1, n_keys(ob) + 1),
{
    lemma_views(ou);
    lemma_views(up);
    lemma_views(ob);
    lemma_views(bp);
    lemma_views(op);
    lemma_views(pp);
    assert(keys_of(up) =~= keys_of(ou).update(k, key_at(ob, 0)));
    assert(kids_of(up) =~= kids_of(ou)) by {
        assert forall|j: int| 0 <= j <= n_keys(up) implies #[trigger] kids_of(up)[j] == kids_of(ou)[j] by {
            if j < n_keys(up) {
                assert(up.cells()[j].c_ptr == ou.cells()[j].c_ptr);
            }
        }
    }
    assert(keys_of(pp) =~= keys_of(op).push(key_at(ou, k))) by {
        assert forall|j: int| 0 <= j < n_keys(pp) implies #[trigger] keys_of(pp)[j] == keys_of(
            op,
        ).push(key_at(ou, k))[j] by {
            if j < n_keys(op) {
                assert(pp.cells()[j] == op.cells()[j]);
            }
        }
    }
    assert(keys_of(bp) =~= keys_of(ob).subrange(1, n_keys(ob))) by {
        assert forall|j: int| 0 <= j < n_keys(bp) implies #[trigger] keys_of(bp)[j] == keys_of(
            ob,
        ).subrange(1, n_keys(ob))[j] by {
            assert(bp.cells()[j] == ob.cells()[j + 1]);
        }
    }
    if !is_leaf(op) {
        assert(kids_of(pp) =~= kids_of(op).push(child_at(ob, 0))) by {
            assert forall|j: int| 0 <= j <= n_keys(pp) implies #[trigger] kids_of(pp)[j] == kids_of(
                op,
            ).push(child_at(ob, 0))[j] by {
                if j < n_keys(op) {
                    assert(pp.cells()[j] == op.cells()[j]);
                } else if j == n_keys(op) {
                    assert(pp.cells()[j].c_ptr == Some(op.hdr().rightmost_ptr));
                }
            }
        }
    }
    if !is_leaf(bp) {
        assert(kids_of(bp) =~= kids_of(ob).subrange(1, n_keys(ob) + 1)) by {
            assert forall|j: int| 0 <= j <= n_keys(bp) implies #[trigger] kids_of(bp)[j] == kids_of(
                ob,
            ).subrange(1, n_keys(ob) + 1)[j] by {
                if j < n_keys(bp) {
                    assert(bp.cells()[j] == ob.cells()[j + 1]);
                }
            }
        }
    }
}

/// What a merge does to the keys and children of the merged page.
proof fn lemma_merge_views(ol: Page, or: Page, ou: Page, lp: Page, k: int)
    requires
        is_leaf(lp) == is_leaf(ol),
        !is_leaf(lp) ==> lp.hdr().rightmost_ptr == or.hdr().rightmost_ptr,
        lp.cells() == ol.cells().push(
            Cell {
                key: key_at(ou, k),
                c_ptr: if is_leaf(ol) {
                    None
                } else {
                    Some(ol.hdr().rightmost_ptr)
                },
            },
        ) + or.cells(),
    ensures
        keys_of(lp) == keys_of(ol).push(key_at(ou, k)) + keys_of(or),
        !is_leaf(ol) ==> kids_of(lp) == kids_of(ol) + kids_of(or),
{
    lemma_views(ol);
    lemma_views(or);
    lemma_views(lp);
    let nl = n_keys(ol);
    assert forall|j: int| 0 <= j < n_keys(lp) implies #[trigger] lp.cells()[j] == (if j < nl {
        ol.cells()[j]
    } else if j == nl {
        lp.cells()[nl]
    } else {
        or.cells()[j - nl - 1]
    }) by {}
    assert(keys_of(lp) =~= keys_of(ol).push(key_at(ou, k)) + keys_of(or));
    if !is_leaf(ol) {
        assert(kids_of(lp) =~= kids_of(ol) + kids_of(or)) by {
            assert forall|j: int| 0 <= j <= n_keys(lp) implies #[trigger] kids_of(lp)[j] == (kids_of(ol)
                + kids_of(or))[j] by {
                if j > nl && j < n_keys(lp) {
                    assert(lp.cells()[j] == or.cells()[j - nl - 1]);
                }
            }
        }
    }
}

/// What merging pages `l` and `r` under `u` can rely on.
proof fn lemma_merge_facts(
    pages: Map<u32, Page>,
    g: Shape,
    root: u32,
    next: u32,
    l: u32,
    r: u32,
    u: u32,
    k: int,
    x: u32,
)
    requires
        merge_pre(pages, g, root, next, l, r, u, k, x),
    ensures
        pages.contains_key(l) && pages.contains_key(r) && pages.contains_key(u),
        pages[l].wf() && pages[r].wf() && pages[u].wf(),
        l != r && u != l && u != r,
        !is_leaf(pages[u]),
        0 <= k < n_keys(pages[u]),
        child_at(pages[u], k) == l,
        (pages[u].hdr().rightmost_ptr == r) == (k + 1 == n_keys(pages[u])),
        is_leaf(pages[l]) == is_leaf(pages[r]),
        keys_strictly_sorted(pages[u].cells()),
        forall|i: int| 0 <= i < n_keys(pages[l]) ==> #[trigger] key_at(pages[l], i) < key_at(pages[u], k),
        forall|i: int| 0 <= i < n_keys(pages[r]) ==> key_at(pages[u], k) < #[trigger] key_at(pages[r], i),
        keys_strictly_sorted(pages[l].cells()),
        keys_strictly_sorted(pages[r].cells()),
        g.level[r] + 1 == g.level[u],
        g.level[l] == g.level[r],
        n_keys(pages[l]) + n_keys(pages[r]) + 1 <= 2 * DEGREE - 2,
{
    reveal(merge_pre);
    assert(node_ok(pages, g, u));
    assert(node_ok(pages, g, l));
    assert(node_ok(pages, g, r));
    lemma_kids_distinct(pages, g, u, k, k + 1);
    assert(g.level[l] + 1 == g.level[u]);
    assert(g.level[r] + 1 == g.level[u]);
    assert(child_at(pages[u], k + 1) == r);
    if k + 1 < n_keys(pages[u]) {
        lemma_kids_distinct(pages, g, u, k + 1, n_keys(pages[u]));
    }
    assert forall|i: int| 0 <= i < n_keys(pages[l]) implies #[trigger] key_at(pages[l], i) < key_at(
        pages[u],
        k,
    ) by {
        assert(within(key_at(pages[l], i), g.lo[l], g.hi[l]));
    }
    assert forall|i: int| 0 <= i < n_keys(pages[r]) implies key_at(pages[u], k) < #[trigger] key_at(
        pages[r],
        i,
    ) by {
        assert(within(key_at(pages[r], i), g.lo[r], g.hi[r]));
    }
}

/// Removing cell `k` of a non-leaf page removes key `k` and child `k`.
proof fn lemma_drop_cell_views(mid: Page, up: Page, k: int)
    requires
        0 <= k < n_keys(mid),
        up.cells() == mid.cells().remove(k),
        up.hdr().rightmost_ptr == mid.hdr().rightmost_ptr,
    ensures
        keys_of(up) == keys_of(mid).remove(k),
        kids_of(up) == kids_of(mid).remove(k),
{
    lemma_views(mid);
    lemma_views(up);
    assert(keys_of(up) =~= keys_of(mid).remove(k)) by {
        assert forall|j: int| 0 <= j < n_keys(up) implies #[trigger] keys_of(up)[j] == keys_of(mid).remove(
            k,
        )[j] by {
            let j0 = if j < k { j } else { j + 1 };
            assert(up.cells()[j] == mid.cells()[j0]);
        }
    }
    assert(kids_of(up) =~= kids_of(mid).remove(k)) by {
        assert forall|j: int| 0 <= j <= n_keys(up) implies #[trigger] kids_of(up)[j] == kids_of(mid).remove(
            k,
        )[j] by {
            let j0 = if j < k { j } else { j + 1 };
            assert(kids_of(mid).remove(k)[j] == kids_of(mid)[j0]);
            if j < n_keys(up) {
                assert(up.cells()[j] == mid.cells()[j0]);
            }
        }
    }
}

/// The cells of a merged page, `left`'s, then the separating key, then
/// `right`'s, are in order and of the page's kind.
proof fn lemma_merged_cells(lc: Seq<Cell>, mid: Cell, rc: Seq<Cell>, k: PageKind)
    requires
        keys_strictly_sorted(lc),
        keys_strictly_sorted(rc),
        forall|i: int| 0 <= i < lc.len() ==> #[trigger] lc[i].key < mid.key,
        forall|i: int| 0 <= i < rc.len() ==> mid.key < #[trigger] rc[i].key,
        kind_consistent(lc, k),
        kind_consistent(rc, k),
        (mid.c_ptr is Some) == (k != PageKind::Leaf),
    ensures
        keys_strictly_sorted(lc.push(mid) + rc),
        kind_consistent(lc.push(mid) + rc, k),
{
    let cs = lc.push(mid) + rc;
    let nl = lc.len();
    assert forall|i: int| 0 <= i < cs.len() implies #[trigger] cs[i] == (if i < nl {
        lc[i]
    } else if i == nl {
        mid
    } else {
        rc[i - nl - 1]
    }) by {}
    assert forall|i: int, j: int| 0 <= i < j < cs.len() implies #[trigger] cs[i].key < #[trigger] cs[j].key by {
        if i < nl && j < nl {
            assert(lc[i].key < lc[j].key);
        } else if i > nl && j > nl {
            assert(rc[i - nl - 1].key < rc[j - nl - 1].key);
        } else if i < nl && j > nl {
            assert(lc[i].key < mid.key);
            assert(mid.key < rc[j - nl - 1].key);
        }
    }
}

/// A non-leaf root without keys gives way to its only child: the pages
/// without it form a tree under that child.
#[verifier::rlimit(40)]
proof fn lemma_root_collapse(pages: Map<u32, Page>, g: Shape, root: u32, next: u32)
    requires
        tree_ok(pages, g, root, next, Some(root), 0),
        n_keys(pages[root]) == 0,
        !is_leaf(pages[root]),
    ensures
        ({
            let c = pages[root].hdr().rightmost_ptr;
            &&& tree_ok(pages.remove(root), g, c, next, None, 0)
            &&& all_keys(pages.remove(root)) == all_keys(pages)
            &&& g.level[c] + 1 == g.level[root]
        }),
{
    let rp = pages[root];
    let c = rp.hdr().rightmost_ptr;
    let pages2 = pages.remove(root);
    assert(node_ok(pages, g, root));
    assert(child_at(rp, 0) == c);
    assert(pages.contains_key(c));
    assert(c != root) by {
        assert(g.level[c] + 1 == g.level[root]);
    }
    // no page is the root's child but `c`, and the root is nobody's child
    assert forall|q: u32| #[trigger] pages.contains_key(q) && q != root implies g.parent[q] != root
        || q == c by {
        if g.parent[q] == root {
            let j = choose|j: int| 0 <= j <= n_keys(rp) && #[trigger] child_at(rp, j) == q;
            assert(j == 0);
        }
    }
    assert forall|q: u32| #[trigger] pages2.contains_key(q) implies node_ok(pages2, g, q) by {
        assert(node_ok(pages, g, q));
        let pq = pages[q];
        if !is_leaf(pq) {
            assert forall|i: int| 0 <= i <= n_keys(pq) implies #[trigger] child_at(pq, i) != root by {
                let d = child_at(pq, i);
                assert(g.level[d] + 1 == g.level[q]);
                assert(g.level[q] < g.level[root]);
            }
        }
    }
    assert forall|q: u32| #[trigger] pages2.contains_key(q) && q != c implies {
        &&& g.level[q] < g.level[c]
        &&& pages2.contains_key(g.parent[q])
        &&& !is_leaf(pages2[g.parent[q]])
        &&& exists|j: int|
            0 <= j <= n_keys(pages2[g.parent[q]]) && #[trigger] child_at(pages2[g.parent[q]], j) == q
    } by {
        let pq = g.parent[q];
        assert(pq != root);
        assert(pages.contains_key(pq));
        assert(node_ok(pages, g, pq));
        let j = choose|j: int| 0 <= j <= n_keys(pages[pq]) && #[trigger] child_at(pages[pq], j) == q;
        assert(child_at(pages[pq], j) == q);
        assert(g.level[pq] < g.level[root]);
    }
    assert(shape_ok(pages2, g, c));
    assert forall|q: u32| #[trigger] pages2.contains_key(q) implies occupancy_ok(pages2, g, c, q) && 1
        <= q < next by {
        assert(occupancy_ok(pages, g, root, q));
    }
    assert(all_keys(pages2) =~= all_keys(pages)) by {
        assert forall|y: i64| all_keys(pages).contains(y) implies all_keys(pages2).contains(y) by {
            let q = choose|q: u32| #[trigger] pages.contains_key(q) && page_keys(pages[q]).contains(y);
            assert(q != root);
            assert(pages2.contains_key(q));
        }
    }
}

/// The index of the first occurrence of `x`.
fn position_of(v: &Vec<u32>, x: u32) -> (r: Option<usize>)
    ensures
        match r {
            Some(i) => i < v@.len() && v@[i as int] == x,
            None => forall|j: int| 0 <= j < v@.len() ==> v@[j] != x,
        },
{
    let n = v.len();
    let mut i: usize = 0;
    while i < n
        invariant
            i <= n,
            n == v@.len(),
            forall|j: int| 0 <= j < i ==> v@[j] != x,
        decreases n - i,
    {
        if v[i] == x {
            return Some(i);
        }
        i = i + 1;
    }
    None
}

impl Btree {
    /// Moves the last key of the left sibling `left_id` up into the parent
    /// and the parent's separating key down into `page_id` (with, for
    /// internal pages, the sibling's rightmost child).
    #[verifier::rlimit(60)]
    #[verifier::spinoff_prover]
    fn borrow_from_left(&mut self, page_id: u32, left_id: u32, parent_id: u32, parent_key_idx: usize) -> (r: Result<(), BtreeError>)
        requires
            borrow_left_pre(
                old(self).pager.pages(),
                old(self).shape@,
                old(self).root_id,
                old(self).pager.next(),
                page_id,
                left_id,
                parent_id,
                parent_key_idx as int,
            ),
        ensures
            r is Ok,
            final(self).inv(),
            final(self).keys() == old(self).keys(),
            final(self).root_id == old(self).root_id,
            final(self).shape@.level == old(self).shape@.level,
            final(self).pager.next() == old(self).pager.next(),
            borrowed_left(
                old(self).pager.pages(),
                final(self).pager.pages(),
                page_id,
                left_id,
                parent_id,
                parent_key_idx as int,
            ),
    {
        let ghost pages = self.pager.pages();
        let ghost g = self.shape@;
        let ghost root = self.root_id;
        let ghost next = self.pager.next();
        let ghost k = parent_key_idx as int;
        proof {
            assert(node_ok(pages, g, parent_id));
            assert(node_ok(pages, g, left_id));
            assert(node_ok(pages, g, page_id));
            pages[parent_id].lemma_view();
            pages[left_id].lemma_view();
            pages[page_id].lemma_view();
            assert(page_id != left_id) by {
                lemma_kids_distinct(pages, g, parent_id, k, k + 1);
            }
            assert(parent_id != page_id && parent_id != left_id) by {
                assert(g.level[page_id] + 1 == g.level[parent_id]);
                assert(g.level[left_id] + 1 == g.level[parent_id]);
            }
            assert(g.lo[page_id] == Some(key_at(pages[parent_id], k)));
        }
        let parent_key = match self.pager.fetch(parent_id).get_cells() {
            Ok(c) => c[parent_key_idx].key,
            Err(e) => {
                return Err(e);
            },
        };
        let left_cells = match self.pager.fetch(left_id).get_cells() {
            Ok(c) => c,
            Err(e) => {
                return Err(e);
            },
        };
        let n_left = left_cells.len();
        let sibling_last_key = left_cells[n_left - 1].key;
        let sibling_last_ptr = left_cells[n_left - 1].c_ptr;
        let left_hdr = match self.pager.fetch(left_id).header() {
            Ok(h) => h,
            Err(e) => {
                return Err(e);
            },
        };
        let sibling_rightmost = left_hdr.rightmost_ptr;
        // the sibling's last key goes up
        let mut upage = self.pager.take(parent_id);
        upage.set_key_at(parent_key_idx as u16, sibling_last_key);
        self.pager.put(parent_id, upage);
        // the parent's key goes down
        let page_hdr = match self.pager.fetch(page_id).header() {
            Ok(h) => h,
            Err(e) => {
                return Err(e);
            },
        };
        let mut page_cells = match self.pager.fetch(page_id).get_cells() {
            Ok(c) => c,
            Err(e) => {
                return Err(e);
            },
        };
        let new_first_cell = if page_hdr.page_ty == PageKind::Leaf {
            Cell { key: parent_key, c_ptr: None }
        } else {
            Cell { key: parent_key, c_ptr: Some(sibling_rightmost) }
        };
        let ghost old_page_cells = page_cells@;
        page_cells.insert(0, new_first_cell);
        proof {
            let op = pages[page_id];
            assert(page_cells@ =~= seq![new_first_cell] + op.cells());
            assert(keys_strictly_sorted(page_cells@)) by {
                assert forall|i: int, j: int| 0 <= i < j < page_cells@.len() implies #[trigger] page_cells@[i].key
                    < #[trigger] page_cells@[j].key by {
                    assert(within(key_at(op, j - 1), g.lo[page_id], g.hi[page_id]));
                    if i > 0 {
                        assert(op.cells()[i - 1].key < op.cells()[j - 1].key);
                    }
                }
            }
            assert(kind_consistent(page_cells@, page_hdr.page_ty));
            lemma_refill(page_cells@, page_hdr.page_ty);
        }
        let mut ppage = self.pager.take(page_id);
        let _ = ppage.reset_and_fill(page_id, page_hdr.page_ty, page_hdr.rightmost_ptr, page_cells.as_slice());
        self.pager.put(page_id, ppage);
        // the sibling gives up its last cell
        let mut apage = self.pager.take(left_id);
        if page_hdr.page_ty != PageKind::Leaf {
            match sibling_last_ptr {
                Some(ptr) => {
                    let _ = apage.set_rightmost_ptr(ptr);
                },
                None => {
                    return Err(BtreeError::MissingChildPointer);
                },
            }
        }
        proof {
            let oa = pages[left_id];
            apage.lemma_view();
            assert(oa.cells().remove(n_left - 1) =~= oa.cells().drop_last());
            assert(kind_consistent(apage.cells().remove(n_left - 1), apage.hdr().page_ty));
            lemma_refill(apage.cells().remove(n_left - 1), apage.hdr().page_ty);
        }
        let _ = apage.remove_cell(n_left - 1);
        self.pager.put(left_id, apage);
        proof {
            let oa = pages[left_id];
            assert(is_leaf(oa) == is_leaf(pages[page_id]));
            if !is_leaf(oa) {
                assert(child_at(oa, n_keys(oa) - 1) == sibling_last_ptr->0);
            }
            lemma_borrow_left(
                pages,
                g,
                root,
                next,
                page_id,
                left_id,
                parent_id,
                k,
                ppage,
                apage,
                upage,
            );
            lemma_borrow_left_views(pages[parent_id], pages[left_id], pages[page_id], upage, ppage, apage, k);
            assert(self.pager.pages() =~= pages.insert(parent_id, upage).insert(page_id, ppage).insert(
                left_id,
                apage,
            ));
        }
        self.shape = Ghost(borrow_left_shape(g, pages, page_id, left_id));
        Ok(())
    }

    /// Moves the first key of the right sibling `right_id` up into the
    /// parent and the parent's separating key down into `page_id` (with, for
    /// internal pages, the sibling's first child).
    #[verifier::rlimit(60)]
    #[verifier::spinoff_prover]
    fn borrow_from_right(&mut self, page_id: u32, right_id: u32, parent_id: u32, parent_key_idx: usize) -> (r: Result<(), BtreeError>)
        requires
            borrow_right_pre(
                old(self).pager.pages(),
                old(self).shape@,
                old(self).root_id,
                old(self).pager.next(),
                page_id,
                right_id,
                parent_id,
                parent_key_idx as int,
            ),
        ensures
            r is Ok,
            final(self).inv(),
            final(self).keys() == old(self).keys(),
            final(self).root_id == old(self).root_id,
            final(self).shape@.level == old(self).shape@.level,
            final(self).pager.next() == old(self).pager.next(),
            borrowed_right(
                old(self).pager.pages(),
                final(self).pager.pages(),
                page_id,
                right_id,
                parent_id,
                parent_key_idx as int,
            ),
    {
        let ghost pages = self.pager.pages();
        let ghost g = self.shape@;
        let ghost root = self.root_id;
        let ghost next = self.pager.next();
        let ghost k = parent_key_idx as int;
        proof {
            assert(node_ok(pages, g, parent_id));
            assert(node_ok(pages, g, right_id));
            assert(node_ok(pages, g, page_id));
            pages[parent_id].lemma_view();
            pages[right_id].lemma_view();
            pages[page_id].lemma_view();
            assert(page_id != right_id) by {
                lemma_kids_distinct(pages, g, parent_id, k, k + 1);
            }
            assert(parent_id != page_id && parent_id != right_id) by {
                assert(g.level[page_id] + 1 == g.level[parent_id]);
                assert(g.level[right_id] + 1 == g.level[parent_id]);
            }
            assert(g.hi[page_id] == Some(key_at(pages[parent_id], k)));
        }
        let parent_key = match self.pager.fetch(parent_id).get_cells() {
            Ok(c) => c[parent_key_idx].key,
            Err(e) => {
                return Err(e);
            },
        };
        let right_cells = match self.pager.fetch(right_id).get_cells() {
            Ok(c) => c,
            Err(e) => {
                return Err(e);
            },
        };
        let sibling_first_key = right_cells[0].key;
        let sibling_first_ptr = right_cells[0].c_ptr;
        // the sibling's first key goes up
        let mut upage = self.pager.take(parent_id);
        upage.set_key_at(parent_key_idx as u16, sibling_first_key);
        self.pager.put(parent_id, upage);
        // the parent's key goes down
        let page_hdr = match self.pager.fetch(page_id).header() {
            Ok(h) => h,
            Err(e) => {
                return Err(e);
            },
        };
        let mut page_cells = match self.pager.fetch(page_id).get_cells() {
            Ok(c) => c,
            Err(e) => {
                return Err(e);
            },
        };
        let (new_last_cell, new_rightmost) = if page_hdr.page_ty == PageKind::Leaf {
            (Cell { key: parent_key, c_ptr: None }, 0u32)
        } else {
            match sibling_first_ptr {
                Some(ptr) => (Cell { key: parent_key, c_ptr: Some(page_hdr.rightmost_ptr) }, ptr),
                None => {
                    return Err(BtreeError::MissingChildPointer);
                },
            }
        };
        page_cells.push(new_last_cell);
        proof {
            let op = pages[page_id];
            let n = op.cells().len();
            assert(keys_strictly_sorted(page_cells@)) by {
                assert forall|i: int, j: int| 0 <= i < j < page_cells@.len() implies #[trigger] page_cells@[i].key
                    < #[trigger] page_cells@[j].key by {
                    assert(within(key_at(op, i), g.lo[page_id], g.hi[page_id]));
                    if j < n {
                        assert(op.cells()[i].key < op.cells()[j].key);
                    }
                }
            }
            assert(kind_consistent(page_cells@, page_hdr.page_ty));
            lemma_refill(page_cells@, page_hdr.page_ty);
        }
        let mut ppage = self.pager.take(page_id);
        let _ = ppage.reset_and_fill(
            page_id,
            page_hdr.page_ty,
            if page_hdr.page_ty == PageKind::Leaf {
                0
            } else {
                new_rightmost
            },
            page_cells.as_slice(),
        );
        self.pager.put(page_id, ppage);
        // the sibling gives up its first cell
        let mut bpage = self.pager.take(right_id);
        proof {
            let ob = pages[right_id];
            assert(ob.cells().remove(0) =~= ob.cells().subrange(1, n_keys(ob)));
            assert(kind_consistent(ob.cells().remove(0), ob.hdr().page_ty));
            lemma_refill(ob.cells().remove(0), ob.hdr().page_ty);
        }
        let _ = bpage.remove_cell(0);
        self.pager.put(right_id, bpage);
        proof {
            let ob = pages[right_id];
            assert(is_leaf(ob) == is_leaf(pages[page_id]));
            if !is_leaf(ob) {
                assert(child_at(ob, 0) == sibling_first_ptr->0);
            }
            lemma_borrow_right(
                pages,
                g,
                root,
                next,
                page_id,
                right_id,
                parent_id,
                k,
                ppage,
                bpage,
                upage,
            );
            lemma_borrow_right_views(pages[parent_id], pages[right_id], pages[page_id], upage, ppage, bpage, k);
            assert(self.pager.pages() =~= pages.insert(parent_id, upage).insert(page_id, ppage).insert(
                right_id,
                bpage,
            ));
        }
        self.shape = Ghost(borrow_right_shape(g, pages, page_id, right_id));
        Ok(())
    }

    /// Merges `right_id` into `left_id`, with the parent's separating key
    /// between their keys; the parent loses that key and its pointer to
    /// `right_id`, whose page is dropped.
    #[verifier::rlimit(100)]
    #[verifier::spinoff_prover]
    fn merge_nodes(&mut self, left_id: u32, right_id: u32, parent_id: u32, parent_key_idx: usize, Ghost(x): Ghost<u32>) -> (r: Result<(), BtreeError>)
        requires
            merge_pre(
                old(self).pager.pages(),
                old(self).shape@,
                old(self).root_id,
                old(self).pager.next(),
                left_id,
                right_id,
                parent_id,
                parent_key_idx as int,
                x,
            ),
        ensures
            r is Ok,
            ({
                let pages2 = final(self).pager.pages();
                let g2 = final(self).shape@;
                let g = old(self).shape@;
                &&& tree_ok(
                    pages2,
                    g2,
                    final(self).root_id,
                    final(self).pager.next(),
                    Some(parent_id),
                    n_keys(pages2[parent_id]),
                )
                &&& pages2.contains_key(parent_id)
                &&& n_keys(pages2[parent_id]) == n_keys(old(self).pager.pages()[parent_id]) - 1
                &&& g2.level == g.level
                &&& forall|q: u32|
                    old(self).pager.pages().contains_key(q) && q != old(self).root_id && g.level[q]
                        >= g.level[parent_id] ==> pages2.contains_key(q) && g2.parent[q] == g.parent[q]
            }),
            final(self).keys() == old(self).keys(),
            final(self).root_id == old(self).root_id,
            final(self).pager.next() == old(self).pager.next(),
            ({
                let pages = old(self).pager.pages();
                let np = final(self).pager.pages();
                let k = parent_key_idx as int;
                let (ou, ol, or) = (pages[parent_id], pages[left_id], pages[right_id]);
                &&& np == pages.remove(right_id).insert(left_id, np[left_id]).insert(
                    parent_id,
                    np[parent_id],
                )
                &&& keys_of(np[left_id]) == keys_of(ol).push(key_at(ou, k)) + keys_of(or)
                &&& !is_leaf(ol) ==> kids_of(np[left_id]) == kids_of(ol) + kids_of(or)
                &&& keys_of(np[parent_id]) == keys_of(ou).remove(k)
                &&& kids_of(np[parent_id]) == kids_of(ou).remove(k + 1)
            }),
    {
        let ghost pages = self.pager.pages();
        let ghost g = self.shape@;
        let ghost root = self.root_id;
        let ghost next = self.pager.next();
        let ghost k = parent_key_idx as int;
        proof {
            lemma_merge_facts(pages, g, root, next, left_id, right_id, parent_id, k, x);
            pages[parent_id].lemma_view();
            pages[right_id].lemma_view();
            pages[left_id].lemma_view();
        }
        let parent_key = match self.pager.fetch(parent_id).get_cells() {
            Ok(c) => c[parent_key_idx].key,
            Err(e) => {
                return Err(e);
            },
        };
        let left_hdr = match self.pager.fetch(left_id).header() {
            Ok(h) => h,
            Err(e) => {
                return Err(e);
            },
        };
        let right_hdr = match self.pager.fetch(right_id).header() {
            Ok(h) => h,
            Err(e) => {
                return Err(e);
            },
        };
        let mut left_cells = match self.pager.fetch(left_id).get_cells() {
            Ok(c) => c,
            Err(e) => {
                return Err(e);
            },
        };
        let mut right_cells = match self.pager.fetch(right_id).get_cells() {
            Ok(c) => c,
            Err(e) => {
                return Err(e);
            },
        };
        // the parent's key joins the left page
        let mid_cell = if left_hdr.page_ty == PageKind::Leaf {
            Cell { key: parent_key, c_ptr: None }
        } else {
            Cell { key: parent_key, c_ptr: Some(left_hdr.rightmost_ptr) }
        };
        left_cells.push(mid_cell);
        let ghost with_key = left_cells@;
        left_cells.append(&mut right_cells);
        let new_left_rightmost = if left_hdr.page_ty == PageKind::Leaf {
            0
        } else {
            right_hdr.rightmost_ptr
        };
        proof {
            let ol = pages[left_id];
            let or = pages[right_id];
            assert(left_cells@ =~= ol.cells().push(mid_cell) + or.cells());
            assert forall|i: int| 0 <= i < ol.cells().len() implies #[trigger] ol.cells()[i].key
                < mid_cell.key by {
                assert(key_at(ol, i) < key_at(pages[parent_id], k));
            }
            assert forall|i: int| 0 <= i < or.cells().len() implies mid_cell.key
                < #[trigger] or.cells()[i].key by {
                assert(key_at(pages[parent_id], k) < key_at(or, i));
            }
            lemma_merged_cells(ol.cells(), mid_cell, or.cells(), left_hdr.page_ty);
            lemma_refill(left_cells@, left_hdr.page_ty);
        }
        let mut lpage = self.pager.take(left_id);
        let _ = lpage.reset_and_fill(left_id, left_hdr.page_ty, new_left_rightmost, left_cells.as_slice());
        self.pager.put(left_id, lpage);
        // the parent now points at the left page where it pointed at the right one
        let parent_hdr = match self.pager.fetch(parent_id).header() {
            Ok(h) => h,
            Err(e) => {
                return Err(e);
            },
        };
        let mut upage = self.pager.take(parent_id);
        let ghost ou = pages[parent_id];
        proof {
            lemma_views(ou);
        }
        if parent_hdr.rightmost_ptr == right_id {
            let _ = upage.set_rightmost_ptr(left_id);
            proof {
                lemma_views(upage);
                assert(kids_of(upage) =~= kids_of(ou).update(k + 1, left_id));
            }
        } else {
            let _ = upage.set_child_ptr_at(parent_key_idx + 1, left_id);
            proof {
                lemma_views(upage);
                assert(kids_of(upage) =~= kids_of(ou).update(k + 1, left_id));
            }
        }
        let ghost mid = upage;
        proof {
            mid.lemma_view();
            lemma_views(mid);
            assert(keys_of(mid) =~= keys_of(ou));
            assert(keys_strictly_sorted(mid.cells().remove(k))) by {
                assert forall|i: int, j: int| 0 <= i < j < mid.cells().len() - 1 implies #[trigger] mid.cells().remove(k)[i].key
                    < #[trigger] mid.cells().remove(k)[j].key by {
                    let i0 = if i < k { i } else { i + 1 };
                    let j0 = if j < k { j } else { j + 1 };
                    assert(mid.cells().remove(k)[i] == mid.cells()[i0]);
                    assert(mid.cells().remove(k)[j] == mid.cells()[j0]);
                    assert(keys_of(mid)[i0] == keys_of(ou)[i0]);
                    assert(keys_of(mid)[j0] == keys_of(ou)[j0]);
                    assert(key_at(ou, i0) < key_at(ou, j0));
                }
            }
            assert(kind_consistent(mid.cells().remove(k), mid.hdr().page_ty));
            lemma_refill(mid.cells().remove(k), mid.hdr().page_ty);
        }
        let _ = upage.remove_cell(parent_key_idx);
        self.pager.put(parent_id, upage);
        self.pager.remove_entry(right_id);
        proof {
            let up = upage;
            lemma_drop_cell_views(mid, up, k);
            assert(keys_of(up) =~= keys_of(ou).remove(k));
            assert(kids_of(up) =~= kids_of(ou).remove(k + 1)) by {
                assert(kids_of(ou)[k] == left_id);
            }
            lemma_merge(pages, g, root, next, left_id, right_id, parent_id, k, x, lpage, up);
            lemma_merge_views(pages[left_id], pages[right_id], ou, lpage, k);
            assert(self.pager.pages() =~= pages.remove(right_id).insert(left_id, lpage).insert(
                parent_id,
                up,
            ));
            assert forall|q: u32|
                pages.contains_key(q) && q != root && g.level[q] >= g.level[parent_id] implies self.pager.pages().contains_key(
                q,
            ) by {
                assert(q != right_id);
            }
        }
        self.shape = Ghost(merge_shape(g, left_id, right_id));
        Ok(())
    }
}


impl Btree {
    /// Restores the tree invariant after the last page of `breadcrumbs` lost
    /// a key: a root without keys gives way to its only child; a page left
    /// with too few keys borrows one from a sibling that can spare one, or
    /// else is merged with a sibling, which takes a key from the parent, and
    /// the parent is then looked at in turn.
    #[verifier::rlimit(100)]
    #[verifier::spinoff_prover]
    pub fn handle_underflow(&mut self, breadcrumbs: &mut Vec<u32>) -> (r: Result<(), BtreeError>)
        requires
            old(self).underflowing(old(breadcrumbs)@),
        ensures
            r is Ok,
            final(self).inv(),
            final(self).keys() == old(self).keys(),
            final(self).height() == old(self).height() || final(self).height() + 1 == old(
                self,
            ).height(),
            old(breadcrumbs)@.len() == 0 ==> *final(self) == *old(self),
            old(breadcrumbs)@.len() > 0 && (old(self).key_count(old(breadcrumbs)@.last()) >= DEGREE - 1
                || (old(breadcrumbs)@.last() == old(self).root() && old(self).is_leaf_page(
                old(breadcrumbs)@.last(),
            ))) ==> *final(self) == *old(self),
            old(self).mended_into(*final(self), old(breadcrumbs)@),
            forall|id: u32| #[trigger] final(self).holds_page(id) ==> old(self).holds_page(id),
            old(breadcrumbs)@.len() > 0 ==> forall|id: u32|
                #[trigger] old(self).pager.pages().contains_key(id) && old(self).level_of(id) < old(
                    self,
                ).level_of(old(breadcrumbs)@.last()) ==> final(self).pager.pages().contains_key(id)
                    && final(self).pager.pages()[id] == old(self).pager.pages()[id],
            final(self).root() != old(self).root() ==> {
                &&& final(self).root() == old(self).first_child(old(self).root())
                &&& !final(self).holds_page(old(self).root())
                &&& final(self).height() + 1 == old(self).height()
            },
        decreases old(breadcrumbs)@.len(),
    {
        let ghost t0 = *self;
        let ghost pages = self.pager.pages();
        let ghost g = self.shape@;
        let ghost root = self.root_id;
        let ghost next = self.pager.next();
        let ghost bc = breadcrumbs@;
        let page_id = match breadcrumbs.pop() {
            Some(id) => id,
            None => {
                proof {
                    lemma_mended_idle(pages, root, pages, root, bc);
                }
                return Ok(());
            },
        };
        proof {
            assert(page_id == bc.last());
            assert(bc[bc.len() - 1] == page_id);
            assert(pages.contains_key(page_id));
            assert(node_ok(pages, g, page_id));
            pages[page_id].lemma_view();
        }
        let cell_count = match self.pager.fetch(page_id).get_cells() {
            Ok(c) => c.len(),
            Err(e) => {
                return Err(e);
            },
        };
        let hdr = match self.pager.fetch(page_id).header() {
            Ok(h) => h,
            Err(e) => {
                return Err(e);
            },
        };
        if page_id == self.root_id {
            if cell_count == 0 && hdr.page_ty != PageKind::Leaf {
                let new_root_id = hdr.rightmost_ptr;
                self.root_id = new_root_id;
                self.pager.remove_entry(page_id);
                proof {
                    lemma_root_collapse(pages, g, root, next);
                    lemma_mended_idle(pages, root, self.pager.pages(), self.root_id, bc);
                }
            } else {
                proof {
                    assert forall|id: u32| #[trigger] pages.contains_key(id) implies occupancy_ok(
                        pages,
                        g,
                        root,
                        id,
                    ) by {}
                    lemma_mended_idle(pages, root, pages, root, bc);
                }
            }
            return Ok(());
        }
        if cell_count >= DEGREE - 1 {
            proof {
                assert forall|id: u32| #[trigger] pages.contains_key(id) implies occupancy_ok(
                    pages,
                    g,
                    root,
                    id,
                ) by {}
                lemma_mended_idle(pages, root, pages, root, bc);
            }
            return Ok(());
        }
        proof {
            assert(bc =~= breadcrumbs@.push(page_id));
        }
        let merged = match self.mend_page(breadcrumbs, page_id, Ghost(bc)) {
            Ok(m) => m,
            Err(e) => {
                return Err(e);
            },
        };
        if !merged {
            return Ok(());
        }
        let ghost mid = *self;
        proof {
            let pages2 = self.pager.pages();
            assert(child_at(pages2[root], 0) == child_at(pages[root], 0));
        }
        let r = self.handle_underflow(breadcrumbs);
        proof {
            lemma_underflow_step(t0, mid, *self, bc);
        }
        r
    }

    /// Mends page `page_id`, the last page of the descent `bc` (the pages of
    /// `breadcrumbs` followed by it), which is not the root and holds too few
    /// keys: it borrows a key from a sibling that can spare one, or is merged
    /// with a sibling. Returns whether it merged, which leaves the parent,
    /// now last in `breadcrumbs`, with one key fewer.
    #[verifier::rlimit(100)]
    #[verifier::spinoff_prover]
    fn mend_page(&mut self, breadcrumbs: &mut Vec<u32>, page_id: u32, Ghost(bc): Ghost<Seq<u32>>) -> (r: Result<bool, BtreeError>)
        requires
            old(self).underflowing(bc),
            bc == old(breadcrumbs)@.push(page_id),
            page_id != old(self).root_id,
            n_keys(old(self).pager.pages()[page_id]) < DEGREE - 1,
        ensures
            r is Ok,
            final(breadcrumbs)@ == old(breadcrumbs)@,
            old(self).mended_into(*final(self), bc),
            forall|id: u32| #[trigger] final(self).holds_page(id) ==> old(self).holds_page(id),
            final(self).keys() == old(self).keys(),
            final(self).root_id == old(self).root_id,
            final(self).shape@.level == old(self).shape@.level,
            final(self).pager.next() == old(self).pager.next(),
            forall|id: u32|
                #[trigger] old(self).pager.pages().contains_key(id) && old(self).shape@.level[id] < old(
                    self,
                ).shape@.level[page_id] ==> final(self).pager.pages().contains_key(id)
                    && final(self).pager.pages()[id] == old(self).pager.pages()[id],
            r == Ok::<bool, BtreeError>(false) ==> final(self).inv(),
            r == Ok::<bool, BtreeError>(true) ==> mend_merges(old(self).pager.pages(), bc),
            r == Ok::<bool, BtreeError>(true) ==> {
                &&& final(self).underflowing(final(breadcrumbs)@)
                &&& final(self).pager.pages().contains_key(final(self).root_id)
                &&& child_at(final(self).pager.pages()[final(self).root_id], 0) == child_at(
                    old(self).pager.pages()[old(self).root_id],
                    0,
                )
            },
    {
        let ghost pages = self.pager.pages();
        let ghost g = self.shape@;
        let ghost root = self.root_id;
        let ghost next = self.pager.next();
        proof {
            reveal(mended);
            assert(page_id == bc.last());
            assert(bc[bc.len() - 1] == page_id);
            assert(pages.contains_key(page_id));
            assert(node_ok(pages, g, page_id));
            pages[page_id].lemma_view();
        }
        let m = breadcrumbs.len();
        if m == 0 {
            return Err(BtreeError::NoParent);
        }
        let parent_id = breadcrumbs[m - 1];
        proof {
            assert(parent_id == bc[bc.len() - 2]);
            assert(g.parent[bc[bc.len() - 2 + 1]] == bc[bc.len() - 2]);
            assert(g.parent[page_id] == parent_id);
            assert(pages.contains_key(parent_id));
            assert(node_ok(pages, g, parent_id));
            assert(!is_leaf(pages[parent_id]));
            pages[parent_id].lemma_view();
        }
        let ghost up = pages[parent_id];
        let parent_hdr = match self.pager.fetch(parent_id).header() {
            Ok(h) => h,
            Err(e) => {
                return Err(e);
            },
        };
        let parent_cells = match self.pager.fetch(parent_id).get_cells() {
            Ok(c) => c,
            Err(e) => {
                return Err(e);
            },
        };
        let mut children: Vec<u32> = Vec::new();
        let np = parent_cells.len();
        let mut i: usize = 0;
        while i < np
            invariant
                i <= np,
                np == parent_cells@.len(),
                parent_cells@ == up.cells(),
                !is_leaf(up),
                up.wf(),
                children@ == Seq::new(i as nat, |j: int| child_at(up, j)),
            decreases np - i,
        {
            proof {
                up.lemma_view();
            }
            match parent_cells[i].c_ptr {
                Some(c) => {
                    children.push(c);
                },
                None => {
                    return Err(BtreeError::MissingChildPointer);
                },
            }
            i = i + 1;
            proof {
                assert(children@ =~= Seq::new(i as nat, |j: int| child_at(up, j)));
            }
        }
        children.push(parent_hdr.rightmost_ptr);
        proof {
            assert(children@ =~= kids_of(up));
            lemma_views(up);
        }
        let child_idx = match position_of(&children, page_id) {
            Some(i) => i,
            None => {
                proof {
                    let j = choose|j: int| 0 <= j <= n_keys(up) && #[trigger] child_at(up, j) == page_id;
                    assert(children@[j] == page_id);
                }
                return Err(BtreeError::ChildNotInParent);
            },
        };
        proof {
            assert(child_at(up, child_idx as int) == page_id);
            assert(occupancy_ok(pages, g, root, parent_id));
            assert(n_keys(up) >= 1);
            assert(kid_index(up, page_id) == child_idx) by {
                let i = kid_index(up, page_id);
                assert(child_at(up, i) == page_id);
                if i < child_idx {
                    lemma_kids_distinct(pages, g, parent_id, i, child_idx as int);
                } else if i > child_idx {
                    lemma_kids_distinct(pages, g, parent_id, child_idx as int, i);
                }
            }
            assert(bc.len() >= 2 && bc.last() == page_id && bc[bc.len() - 2] == parent_id);
        }
        // borrow from a sibling that can spare a key
        if child_idx > 0 {
            let left_sibling_id = children[child_idx - 1];
            proof {
                assert(child_at(up, child_idx - 1) == left_sibling_id);
                assert(pages.contains_key(left_sibling_id));
                assert(node_ok(pages, g, left_sibling_id));
            }
            let left_len = match self.pager.fetch(left_sibling_id).get_cells() {
                Ok(c) => c.len(),
                Err(e) => {
                    return Err(e);
                },
            };
            if left_len > DEGREE - 1 {
                match self.borrow_from_left(page_id, left_sibling_id, parent_id, child_idx - 1) {
                    Ok(()) => {},
                    Err(e) => {
                        return Err(e);
                    },
                }
                return Ok(false);
            }
        }
        if child_idx + 1 < children.len() {
            let right_sibling_id = children[child_idx + 1];
            proof {
                assert(child_at(up, child_idx + 1) == right_sibling_id);
                assert(pages.contains_key(right_sibling_id));
                assert(node_ok(pages, g, right_sibling_id));
            }
            let right_len = match self.pager.fetch(right_sibling_id).get_cells() {
                Ok(c) => c.len(),
                Err(e) => {
                    return Err(e);
                },
            };
            if right_len > DEGREE - 1 {
                match self.borrow_from_right(page_id, right_sibling_id, parent_id, child_idx) {
                    Ok(()) => {},
                    Err(e) => {
                        return Err(e);
                    },
                }
                return Ok(false);
            }
        }
        // merge with a sibling
        if child_idx > 0 {
            let left_sibling_id = children[child_idx - 1];
            proof {
                assert(child_at(up, child_idx - 1) == left_sibling_id);
                assert(left_sibling_id != page_id) by {
                    lemma_kids_distinct(pages, g, parent_id, child_idx - 1, child_idx as int);
                }
                assert(occupancy_ok(pages, g, root, left_sibling_id));
                reveal(merge_pre);
            }
            match self.merge_nodes(left_sibling_id, page_id, parent_id, child_idx - 1, Ghost(page_id)) {
                Ok(()) => {},
                Err(e) => {
                    return Err(e);
                },
            }
        } else {
            let right_sibling_id = children[child_idx + 1];
            proof {
                assert(child_at(up, child_idx + 1) == right_sibling_id);
                assert(right_sibling_id != page_id) by {
                    lemma_kids_distinct(pages, g, parent_id, child_idx as int, child_idx + 1);
                }
                assert(occupancy_ok(pages, g, root, right_sibling_id));
                reveal(merge_pre);
            }
            match self.merge_nodes(page_id, right_sibling_id, parent_id, child_idx, Ghost(page_id)) {
                Ok(()) => {},
                Err(e) => {
                    return Err(e);
                },
            }
        }
        proof {
            let pages2 = self.pager.pages();
            let g2 = self.shape@;
            let bc2 = breadcrumbs@;
            assert(bc2 =~= bc.drop_last());
            assert(bc2.last() == parent_id);
            assert forall|i: int| 0 <= i < bc2.len() implies pages2.contains_key(#[trigger] bc2[i])
                && g2.level[bc2[i]] + i == g2.level[root] by {
                assert(bc2[i] == bc[i]);
                assert(g.level[bc[i]] + i == g.level[root]);
                if i > 0 {
                    assert(bc[i] != root);
                }
            }
            assert forall|i: int| 0 <= i < bc2.len() - 1 implies g2.parent[#[trigger] bc2[i + 1]]
                == bc2[i] by {
                assert(bc2[i + 1] == bc[i + 1]);
                assert(g.level[bc[i + 1]] + i + 1 == g.level[root]);
                assert(bc[i + 1] != root);
                assert(g.parent[bc[i + 1]] == bc[i]);
            }
            assert(is_path(pages2, g2, root, bc2));
            if parent_id != root {
                assert(occupancy_ok(pages, g, root, parent_id));
            }
            assert(root != child_at(up, child_idx as int) && root != children@[child_idx as int]) by {
                assert(g.level[page_id] < g.level[parent_id]);
            }
            assert(child_at(pages2[root], 0) == child_at(pages[root], 0)) by {
                if parent_id == root {
                    lemma_views(pages[root]);
                    lemma_views(pages2[root]);
                    assert(kids_of(pages2[root])[0] == kids_of(pages[root])[0]);
                } else {
                    assert(g.level[root] > g.level[parent_id]);
                    assert(pages2[root] == pages[root]);
                }
            }
        }
        Ok(true)
    }


    /// Removes `val`; returns whether it was in the tree. A key of an
    /// internal page is replaced by its predecessor, which is taken out of
    /// its leaf; pages left with too few keys are then mended.
    #[verifier::spinoff_prover]
    pub fn remove(&mut self, val: i64) -> (r: Result<bool, BtreeError>)
        requires
            old(self).inv(),
        ensures
            r == Ok::<bool, BtreeError>(old(self).keys().contains(val)),
            !old(self).keys().contains(val) ==> *final(self) == *old(self),
            final(self).inv(),
            final(self).keys() == old(self).keys().remove(val),
            final(self).height() == old(self).height() || final(self).height() + 1 == old(
                self,
            ).height(),
            old(self).keys().contains(val) && old(self).is_leaf_page(old(self).holding_page(val)) && (
            old(self).holding_page(val) == old(self).root() || old(self).key_count(
                old(self).holding_page(val),
            ) > DEGREE - 1) ==> {
                let p = old(self).holding_page(val);
                &&& final(self).root() == old(self).root()
                &&& final(self).has_page(p)
                &&& exists|i: int|
                    0 <= i < old(self).key_count(p) && old(self).keys_of_page(p)[i] == val
                        && final(self).keys_of_page(p) == old(self).keys_of_page(p).remove(i)
                &&& forall|id: u32|
                    id != p ==> (#[trigger] final(self).has_page(id) == old(self).has_page(id)) && (
                    old(self).has_page(id) ==> final(self).keys_of_page(id) == old(
                        self,
                    ).keys_of_page(id))
            },
    {
        let ghost pages = self.pager.pages();
        let ghost g = self.shape@;
        let ghost root = self.root_id;
        let (mut breadcrumbs, idx) = match self.get_deletion_breadcrumbs(val) {
            Ok(res) => res,
            Err(_) => {
                proof {
                    assert(self.keys().remove(val) =~= self.keys());
                }
                return Ok(false);
            },
        };
        let ghost t = breadcrumbs@.last();
        let ghost h = self.holding_page(val);
        proof {
            lemma_views(pages[t]);
            assert(keys_of(pages[t])[idx as int] == val);
            assert(pages.contains_key(t) && keys_of(pages[t]).contains(val));
            let i = choose|i: int| 0 <= i < keys_of(pages[h]).len() && keys_of(pages[h])[i] == val;
            lemma_views(pages[h]);
            assert(key_at(pages[h], i) == val);
            lemma_key_unique(pages, g, root, h, i, t, idx as int);
        }
        self.take_out(&mut breadcrumbs, idx);
        let ghost mid = *self;
        match self.handle_underflow(&mut breadcrumbs) {
            Ok(()) => {},
            Err(e) => {
                return Err(e);
            },
        }
        proof {
            if is_leaf(pages[t]) && (t == root || n_keys(pages[t]) > DEGREE - 1) {
                lemma_views(mid.pager.pages()[t]);
                assert(mid.key_count(t) == n_keys(pages[t]) - 1);
                assert(*self == mid);
                assert(self.keys_of_page(t) == keys_of(pages[t]).remove(idx as int));
                assert(old(self).keys_of_page(t)[idx as int] == val);
            }
        }
        Ok(true)
    }
}


/// The pages one level below those of `s`, in order: the children of each
/// non-leaf page of `s` in turn.
pub open spec fn next_level(pages: Map<u32, Page>, s: Seq<u32>) -> Seq<u32>
    decreases s.len(),
{
    if s.len() == 0 {
        Seq::empty()
    } else {
        next_level(pages, s.drop_last()) + (if is_leaf(pages[s.last()]) {
            Seq::empty()
        } else {
            kids_of(pages[s.last()])
        })
    }
}

/// The pages `d` levels below those of `s`, in order.
pub open spec fn nth_level(pages: Map<u32, Page>, s: Seq<u32>, d: nat) -> Seq<u32>
    decreases d,
{
    if d == 0 {
        s
    } else {
        next_level(pages, nth_level(pages, s, (d - 1) as nat))
    }
}

/// The pages of a level of the tree lead to pages of the level below, and
/// the leaves to none.
proof fn lemma_next_level(pages: Map<u32, Page>, g: Shape, root: u32, s: Seq<u32>, l: nat)
    requires
        shape_ok(pages, g, root),
        forall|i: int| 0 <= i < s.len() ==> pages.contains_key(#[trigger] s[i]) && g.level[s[i]] == l,
    ensures
        l == 0 ==> next_level(pages, s).len() == 0,
        l > 0 && s.len() > 0 ==> next_level(pages, s).len() > 0,
        l > 0 ==> forall|i: int|
            0 <= i < next_level(pages, s).len() ==> pages.contains_key(#[trigger] next_level(pages, s)[i])
                && g.level[next_level(pages, s)[i]] + 1 == l,
    decreases s.len(),
{
    if s.len() > 0 {
        let init = s.drop_last();
        assert forall|i: int| 0 <= i < init.len() implies pages.contains_key(#[trigger] init[i])
            && g.level[init[i]] == l by {
            assert(init[i] == s[i]);
        }
        lemma_next_level(pages, g, root, init, l);
        let p = s.last();
        assert(pages.contains_key(p) && g.level[p] == l);
        assert(node_ok(pages, g, p));
        if !is_leaf(pages[p]) {
            lemma_views(pages[p]);
            let a = next_level(pages, init);
            let b = kids_of(pages[p]);
            assert(b.len() > 0);
            assert forall|i: int| 0 <= i < b.len() implies pages.contains_key(#[trigger] b[i])
                && g.level[b[i]] + 1 == l by {
                assert(b[i] == child_at(pages[p], i));
            }
            assert forall|i: int| 0 <= i < (a + b).len() implies pages.contains_key(#[trigger] (a
                + b)[i]) && g.level[(a + b)[i]] + 1 == l by {
                if i < a.len() {
                    assert((a + b)[i] == a[i]);
                } else {
                    assert((a + b)[i] == b[i - a.len()]);
                }
            }
        } else {
            assert(next_level(pages, s) =~= next_level(pages, init));
        }
    }
}

/// Level `d` of the tree below the root holds pages at level
/// `height - d`; below the leaves there is nothing.
proof fn lemma_nth_level(pages: Map<u32, Page>, g: Shape, root: u32, d: nat)
    requires
        shape_ok(pages, g, root),
        d <= g.level[root] + 1,
    ensures
        d <= g.level[root] ==> forall|i: int|
            0 <= i < nth_level(pages, seq![root], d).len() ==> pages.contains_key(
                #[trigger] nth_level(pages, seq![root], d)[i],
            ) && g.level[nth_level(pages, seq![root], d)[i]] + d == g.level[root],
        d == g.level[root] + 1 ==> nth_level(pages, seq![root], d).len() == 0,
    decreases d,
{
    if d > 0 {
        lemma_nth_level(pages, g, root, (d - 1) as nat);
        let s = nth_level(pages, seq![root], (d - 1) as nat);
        lemma_next_level(pages, g, root, s, (g.level[root] - (d - 1)) as nat);
    }
}

/// Each page of `s` but the first starts its key range where the page
/// before it ends hers: the two are neighbours in key order.
pub open spec fn chained(g: Shape, s: Seq<u32>) -> bool {
    forall|i: int|
        #![trigger g.lo[s[i]]]
        0 < i < s.len() ==> g.lo[s[i]] == g.hi[s[i - 1]] && g.hi[s[i - 1]] != None::<i64>
}

/// Dropping the last page of a chain leaves a chain.
proof fn lemma_chain_init(g: Shape, s: Seq<u32>)
    requires
        s.len() > 0,
        chained(g, s),
    ensures
        chained(g, s.drop_last()),
{
    let init = s.drop_last();
    assert forall|i: int|
        #![trigger g.lo[init[i]]]
        0 < i < init.len() implies g.lo[init[i]] == g.hi[init[i - 1]] && g.hi[init[i - 1]] != None::<i64> by {
        assert(init[i] == s[i] && init[i - 1] == s[i - 1]);
        assert(g.lo[s[i]] == g.hi[s[i - 1]]);
    }
}

/// Two chains, the second starting where the first ends, make one chain.
proof fn lemma_chain_concat(g: Shape, a: Seq<u32>, b: Seq<u32>)
    requires
        chained(g, a),
        chained(g, b),
        a.len() > 0 && b.len() > 0 ==> g.lo[b[0]] == g.hi[a[a.len() - 1]] && g.hi[a[a.len() - 1]] != None::<i64>,
    ensures
        chained(g, a + b),
{
    let n = a + b;
    assert forall|i: int|
        #![trigger g.lo[n[i]]]
        0 < i < n.len() implies g.lo[n[i]] == g.hi[n[i - 1]] && g.hi[n[i - 1]] != None::<i64> by {
        if i < a.len() {
            assert(n[i] == a[i] && n[i - 1] == a[i - 1]);
            assert(g.lo[a[i]] == g.hi[a[i - 1]]);
        } else if i == a.len() {
            assert(n[i] == b[0]);
            assert(n[i - 1] == a[a.len() - 1]);
        } else {
            let j = i - a.len();
            assert(n[i] == b[j] && n[i - 1] == b[j - 1]);
            assert(g.lo[b[j]] == g.hi[b[j - 1]]);
        }
    }
}

/// The children of a non-leaf page form a chain from the page's lower bound
/// to its upper bound.
proof fn lemma_kids_chain(pages: Map<u32, Page>, g: Shape, p: u32)
    requires
        pages.contains_key(p),
        node_ok(pages, g, p),
        !is_leaf(pages[p]),
    ensures
        chained(g, kids_of(pages[p])),
        g.lo[kids_of(pages[p])[0]] == g.lo[p],
        g.hi[kids_of(pages[p])[kids_of(pages[p]).len() - 1]] == g.hi[p],
{
    let pg = pages[p];
    lemma_views(pg);
    let b = kids_of(pg);
    assert(b[0] == child_at(pg, 0));
    assert(b[b.len() - 1] == child_at(pg, n_keys(pg)));
    assert forall|i: int|
        #![trigger g.lo[b[i]]]
        0 < i < b.len() implies g.lo[b[i]] == g.hi[b[i - 1]] && g.hi[b[i - 1]] != None::<i64> by {
        assert(b[i] == child_at(pg, i));
        assert(b[i - 1] == child_at(pg, i - 1));
    }
}

/// The children of a chain of pages, taken in turn, form a chain from the
/// first page's lower bound to the last page's upper bound.
proof fn lemma_next_level_chain(pages: Map<u32, Page>, g: Shape, root: u32, s: Seq<u32>, l: nat)
    requires
        shape_ok(pages, g, root),
        l > 0,
        forall|i: int| 0 <= i < s.len() ==> pages.contains_key(#[trigger] s[i]) && g.level[s[i]] == l,
        chained(g, s),
    ensures
        chained(g, next_level(pages, s)),
        s.len() > 0 ==> next_level(pages, s).len() > 0,
        s.len() > 0 ==> g.lo[next_level(pages, s)[0]] == g.lo[s[0]],
        s.len() > 0 ==> g.hi[next_level(pages, s)[next_level(pages, s).len() - 1]] == g.hi[s[s.len() - 1]],
    decreases s.len(),
{
    if s.len() > 0 {
        let init = s.drop_last();
        assert forall|i: int| 0 <= i < init.len() implies pages.contains_key(#[trigger] init[i])
            && g.level[init[i]] == l by {
            assert(init[i] == s[i]);
        }
        lemma_chain_init(g, s);
        lemma_next_level_chain(pages, g, root, init, l);
        let p = s[s.len() - 1];
        assert(pages.contains_key(p) && g.level[p] == l);
        assert(node_ok(pages, g, p));
        lemma_kids_chain(pages, g, p);
        let a = next_level(pages, init);
        let b = kids_of(pages[p]);
        assert(next_level(pages, s) == a + b);
        lemma_views(pages[p]);
        if init.len() > 0 {
            assert(init[init.len() - 1] == s[s.len() - 2]);
            assert(g.lo[s[s.len() - 1]] == g.hi[s[s.len() - 2]]);
            assert(init[0] == s[0]);
        }
        lemma_chain_concat(g, a, b);
        let n = a + b;
        if init.len() == 0 {
            assert(n[0] == b[0]);
        } else {
            assert(n[0] == a[0]);
        }
        assert(n[n.len() - 1] == b[b.len() - 1]);
    }
}

/// Every level of the tree, as `nth_level` lists it, is a chain of pages in
/// key order.
proof fn lemma_nth_level_chain(pages: Map<u32, Page>, g: Shape, root: u32, d: nat)
    requires
        shape_ok(pages, g, root),
        d <= g.level[root],
    ensures
        chained(g, nth_level(pages, seq![root], d)),
    decreases d,
{
    if d > 0 {
        lemma_nth_level_chain(pages, g, root, (d - 1) as nat);
        lemma_nth_level(pages, g, root, (d - 1) as nat);
        let s = nth_level(pages, seq![root], (d - 1) as nat);
        lemma_next_level_chain(pages, g, root, s, (g.level[root] - (d - 1)) as nat);
    } else {
        assert(nth_level(pages, seq![root], 0) == seq![root]);
    }
}

/// The children of every non-leaf page of `s` are among the pages of the
/// level below.
proof fn lemma_next_level_has_kids(pages: Map<u32, Page>, s: Seq<u32>, k: int, j: int)
    requires
        0 <= k < s.len(),
        !is_leaf(pages[s[k]]),
        0 <= j <= n_keys(pages[s[k]]),
    ensures
        next_level(pages, s).contains(child_at(pages[s[k]], j)),
    decreases s.len(),
{
    let init = s.drop_last();
    let a = next_level(pages, init);
    let p = s[s.len() - 1];
    lemma_views(pages[s[k]]);
    if k == s.len() - 1 {
        let b = kids_of(pages[p]);
        assert(next_level(pages, s) == a + b);
        assert((a + b)[a.len() + j] == b[j]);
    } else {
        assert(init[k] == s[k]);
        lemma_next_level_has_kids(pages, init, k, j);
        let i = choose|i: int| 0 <= i < a.len() && a[i] == child_at(pages[s[k]], j);
        if is_leaf(pages[p]) {
            assert(next_level(pages, s) == a + Seq::<u32>::empty());
            assert((a + Seq::<u32>::empty())[i] == a[i]);
        } else {
            assert(next_level(pages, s) == a + kids_of(pages[p]));
            assert((a + kids_of(pages[p]))[i] == a[i]);
        }
    }
}

/// Every page of the tree `d` levels below the root is listed by
/// `nth_level` at depth `d`.
proof fn lemma_nth_level_complete(pages: Map<u32, Page>, g: Shape, root: u32, d: nat, q: u32)
    requires
        shape_ok(pages, g, root),
        pages.contains_key(q),
        g.level[q] + d == g.level[root],
    ensures
        nth_level(pages, seq![root], d).contains(q),
    decreases d,
{
    if d == 0 {
        assert(q == root);
        assert(nth_level(pages, seq![root], 0)[0] == root);
    } else {
        assert(q != root);
        let u = g.parent[q];
        let j = choose|j: int| 0 <= j <= n_keys(pages[u]) && #[trigger] child_at(pages[u], j) == q;
        assert(node_ok(pages, g, u));
        assert(child_at(pages[u], j) == q);
        lemma_nth_level_complete(pages, g, root, (d - 1) as nat, u);
        let s = nth_level(pages, seq![root], (d - 1) as nat);
        let k = choose|k: int| 0 <= k < s.len() && s[k] == u;
        lemma_next_level_has_kids(pages, s, k, j);
    }
}

impl Btree {
    /// Every page of the tree is listed by `levels`, on the level that
    /// matches its distance from the root.
    pub proof fn lemma_levels_complete(t: Btree, id: u32)
        requires
            t.inv(),
            t.has_page(id),
        ensures
            t.level_of(id) <= t.height(),
            t.level_ids()[t.height() - t.level_of(id)].contains(id),
    {
        let pages = t.pager.pages();
        let g = t.shape@;
        let root = t.root_id;
        assert(node_ok(pages, g, id));
        if id != root {
            assert(g.level[id] < g.level[root]);
        }
        let d = (g.level[root] - g.level[id]) as nat;
        lemma_nth_level_complete(pages, g, root, d, id);
        assert(t.level_ids()[d as int] == nth_level(pages, seq![root], d));
    }

    /// The pages of each level are listed in key order, as `levels` prints
    /// them: every key of a page is below every key of the page listed after
    /// it on the same level.
    pub proof fn lemma_levels_in_key_order(t: Btree, d: int, i: int, a: int, b: int)
        requires
            t.inv(),
            0 <= d < t.level_ids().len(),
            0 < i < t.level_ids()[d].len(),
            0 <= a < t.keys_of_page(t.level_ids()[d][i - 1]).len(),
            0 <= b < t.keys_of_page(t.level_ids()[d][i]).len(),
        ensures
            t.keys_of_page(t.level_ids()[d][i - 1])[a] < t.keys_of_page(t.level_ids()[d][i])[b],
    {
        let pages = t.pager.pages();
        let g = t.shape@;
        let root = t.root_id;
        let s = nth_level(pages, seq![root], d as nat);
        assert(t.level_ids()[d] == s);
        lemma_nth_level(pages, g, root, d as nat);
        lemma_nth_level_chain(pages, g, root, d as nat);
        let x = s[i - 1];
        let y = s[i];
        assert(pages.contains_key(x) && pages.contains_key(y));
        assert(node_ok(pages, g, x) && node_ok(pages, g, y));
        lemma_views(pages[x]);
        lemma_views(pages[y]);
        assert(g.lo[s[i]] == g.hi[s[i - 1]]);
        assert(within(key_at(pages[x], a), g.lo[x], g.hi[x]));
        assert(within(key_at(pages[y], b), g.lo[y], g.hi[y]));
    }
}

impl Btree {
    /// The page ids of the tree level by level from the root down, each
    /// level in order.
    pub closed spec fn level_ids(self) -> Seq<Seq<u32>> {
        Seq::new(
            self.height() + 1,
            |d: int| nth_level(self.pager.pages(), seq![self.root_id], d as nat),
        )
    }

    /// The keys of page `id`, in order.
    pub open spec fn keys_of_page(self, id: u32) -> Seq<i64> {
        keys_of(self.pager.pages()[id])
    }

    /// The page that holds key `val`, when the tree holds it.
    pub closed spec fn holding_page(self, val: i64) -> u32 {
        choose|p: u32|
            #![trigger self.pager.pages().contains_key(p)]
            self.pager.pages().contains_key(p) && keys_of(self.pager.pages()[p]).contains(val)
    }

    /// The leaf whose key range takes in `val`: the leaf where the search
    /// for `val` ends.
    pub closed spec fn home_leaf(self, val: i64) -> u32 {
        choose|p: u32|
            #![trigger self.pager.pages().contains_key(p)]
            self.pager.pages().contains_key(p) && self.shape@.level[p] == 0 && within(
                val,
                self.shape@.lo[p],
                self.shape@.hi[p],
            )
    }

    /// The keys of every page, level by level from the root down, each level
    /// in order (the pages of a level being the children of those of the
    /// level above, in turn).
    #[verifier::spinoff_prover]
    pub fn levels(&self) -> (r: Result<Vec<Vec<Vec<i64>>>, BtreeError>)
        requires
            self.inv(),
        ensures
            r is Ok,
            r->Ok_0@.len() == self.level_ids().len(),
            forall|d: int|
                0 <= d < r->Ok_0@.len() ==> #[trigger] r->Ok_0@[d]@.len() == self.level_ids()[d].len(),
            forall|d: int, i: int|
                0 <= d < r->Ok_0@.len() && 0 <= i < r->Ok_0@[d]@.len() ==> #[trigger] r->Ok_0@[d]@[i]@
                    == self.keys_of_page(self.level_ids()[d][i]),
    {
        let ghost pages = self.pager.pages();
        let ghost g = self.shape@;
        let ghost root = self.root_id;
        let ghost h = g.level[root];
        let mut out: Vec<Vec<Vec<i64>>> = Vec::new();
        let mut current: Vec<u32> = Vec::new();
        current.push(self.root_id);
        let ghost mut d: nat = 0;
        proof {
            assert(current@ =~= seq![root]);
            lemma_nth_level(pages, g, root, 0);
        }
        while current.len() > 0
            invariant
                self.inv(),
                pages == self.pager.pages(),
                g == self.shape@,
                root == self.root_id,
                h == g.level[root],
                d <= h + 1,
                current@ == nth_level(pages, seq![root], d),
                current@.len() > 0 <==> d <= h,
                d <= h ==> forall|i: int|
                    0 <= i < current@.len() ==> pages.contains_key(#[trigger] current@[i]) && g.level[current@[i]]
                        + d == h,
                out@.len() == d,
                forall|e: int|
                    0 <= e < d ==> #[trigger] out@[e]@.len() == nth_level(pages, seq![root], e as nat).len(),
                forall|e: int, i: int|
                    0 <= e < d && 0 <= i < out@[e]@.len() ==> #[trigger] out@[e]@[i]@ == keys_of(
                        pages[nth_level(pages, seq![root], e as nat)[i]],
                    ),
            decreases h + 1 - d,
        {
            let mut row: Vec<Vec<i64>> = Vec::new();
            let mut nxt: Vec<u32> = Vec::new();
            let n = current.len();
            let mut i: usize = 0;
            while i < n
                invariant
                    self.inv(),
                    pages == self.pager.pages(),
                    g == self.shape@,
                    n == current@.len(),
                    i <= n,
                    d <= h,
                    forall|j: int|
                        0 <= j < current@.len() ==> pages.contains_key(#[trigger] current@[j]) && g.level[current@[j]]
                            + d == h,
                    nxt@ == next_level(pages, current@.take(i as int)),
                    row@.len() == i,
                    forall|j: int| 0 <= j < i ==> #[trigger] row@[j]@ == keys_of(pages[current@[j]]),
                decreases n - i,
            {
                let page_id = current[i];
                let page = self.pager.fetch(page_id);
                proof {
                    assert(pages.contains_key(page_id));
                    assert(node_ok(pages, g, page_id));
                    page.lemma_view();
                    lemma_views(*page);
                }
                let cells = match page.get_cells() {
                    Ok(c) => c,
                    Err(e) => {
                        return Err(e);
                    },
                };
                let p_hdr = match page.header() {
                    Ok(h) => h,
                    Err(e) => {
                        return Err(e);
                    },
                };
                let mut keys: Vec<i64> = Vec::new();
                let nc = cells.len();
                let mut j: usize = 0;
                while j < nc
                    invariant
                        j <= nc,
                        nc == cells@.len(),
                        keys@ == cells@.take(j as int).map_values(|c: Cell| c.key),
                    decreases nc - j,
                {
                    keys.push(cells[j].key);
                    j = j + 1;
                    proof {
                        assert(keys@ =~= cells@.take(j as int).map_values(|c: Cell| c.key));
                    }
                }
                proof {
                    assert(cells@.take(nc as int) =~= cells@);
                }
                row.push(keys);
                let ghost nxt0 = nxt@;
                if p_hdr.page_ty != PageKind::Leaf {
                    let mut k: usize = 0;
                    while k < nc
                        invariant
                            k <= nc,
                            nc == cells@.len(),
                            cells@ == page.cells(),
                            !is_leaf(*page),
                            page.wf(),
                            nxt@ == nxt0 + Seq::new(k as nat, |t: int| child_at(*page, t)),
                        decreases nc - k,
                    {
                        proof {
                            page.lemma_view();
                        }
                        match cells[k].c_ptr {
                            Some(c) => {
                                nxt.push(c);
                            },
                            None => {
                                return Err(BtreeError::MissingChildPointer);
                            },
                        }
                        k = k + 1;
                        proof {
                            assert(nxt@ =~= nxt0 + Seq::new(k as nat, |t: int| child_at(*page, t)));
                        }
                    }
                    nxt.push(p_hdr.rightmost_ptr);
                    proof {
                        assert(nxt@ =~= nxt0 + kids_of(*page));
                    }
                }
                proof {
                    let t1 = current@.take(i + 1);
                    assert(t1.drop_last() =~= current@.take(i as int));
                    assert(t1.last() == page_id);
                    if p_hdr.page_ty == PageKind::Leaf {
                        assert(nxt@ =~= next_level(pages, t1));
                    }
                }
                i = i + 1;
            }
            proof {
                assert(current@.take(n as int) =~= current@);
                lemma_next_level(pages, g, root, current@, (h - d) as nat);
                assert(nth_level(pages, seq![root], d + 1) == next_level(pages, current@));
            }
            out.push(row);
            current = nxt;
            proof {
                d = d + 1;
                if d <= h {
                    assert forall|i: int| 0 <= i < current@.len() implies pages.contains_key(
                        #[trigger] current@[i],
                    ) && g.level[current@[i]] + d == h by {}
                } else {
                    lemma_nth_level(pages, g, root, d);
                }
            }
        }
        Ok(out)
    }
}


impl Btree {
    /// Page `id` is one of the tree's pages.
    pub open spec fn has_page(self, id: u32) -> bool {
        self.pager.pages().contains_key(id)
    }

    /// Page `id` is a leaf.
    pub open spec fn is_leaf_page(self, id: u32) -> bool {
        is_leaf(self.pager.pages()[id])
    }

    /// The number of keys on page `id`.
    pub open spec fn key_count(self, id: u32) -> int {
        n_keys(self.pager.pages()[id])
    }

    /// After `v` is inserted, the tree holds `v`, and holds every other key
    /// exactly when it held it before.
    pub proof fn lemma_insert_then_found(before: Btree, after: Btree, v: i64, w: i64)
        requires
            after.keys() == before.keys().insert(v),
        ensures
            after.keys().contains(v),
            w != v ==> (after.keys().contains(w) <==> before.keys().contains(w)),
    {
    }

    /// After `v` is removed, the tree does not hold `v`, and holds every
    /// other key exactly when it held it before.
    pub proof fn lemma_remove_then_gone(before: Btree, after: Btree, v: i64, w: i64)
        requires
            after.keys() == before.keys().remove(v),
        ensures
            !after.keys().contains(v),
            w != v ==> (after.keys().contains(w) <==> before.keys().contains(w)),
    {
    }

    /// Removing a key just inserted into a tree that lacked it gives back the
    /// keys the tree had.
    pub proof fn lemma_insert_then_remove(t0: Btree, t1: Btree, t2: Btree, v: i64)
        requires
            !t0.keys().contains(v),
            t1.keys() == t0.keys().insert(v),
            t2.keys() == t1.keys().remove(v),
        ensures
            t2.keys() == t0.keys(),
    {
        assert(t2.keys() =~= t0.keys());
    }

    /// In a tree that satisfies the invariant every page holds at most
    /// `2 * DEGREE - 2` keys, every page but the root at least `DEGREE - 1`,
    /// and every page is at the same distance from the leaves as its
    /// siblings: a page is a leaf exactly when it is at level 0.
    pub proof fn lemma_page_sizes(t: Btree, id: u32)
        requires
            t.inv(),
            t.has_page(id),
        ensures
            t.key_count(id) <= 2 * DEGREE - 2,
            id != t.root() ==> t.key_count(id) >= DEGREE - 1,
            id != t.root() ==> t.level_of(id) < t.height(),
            (t.level_of(id) == 0) == t.is_leaf_page(id),
    {
        assert(occupancy_ok(t.pager.pages(), t.shape@, t.root_id, id));
        assert(node_ok(t.pager.pages(), t.shape@, id));
    }
}


impl Btree {
    /// Whether enough page ids are left for an insertion, which may take a
    /// new page on every level and one more for a new root.
    pub fn room_to_grow(&self) -> (b: bool)
        requires
            self.inv(),
        ensures
            b == (self.next_page_id() + self.height() + 2 < u32::MAX),
    {
        let ghost pages = self.pager.pages();
        let ghost g = self.shape@;
        let ghost root = self.root_id;
        let mut id = self.root_id;
        let mut levels: u64 = 0;
        loop
            invariant
                self.inv(),
                pages == self.pager.pages(),
                g == self.shape@,
                root == self.root_id,
                pages.contains_key(id),
                g.level[id] + levels == g.level[root],
                levels < u32::MAX,
            ensures
                g.level[root] == levels,
            decreases g.level[id],
        {
            let page = self.pager.fetch(id);
            proof {
                assert(node_ok(pages, g, id));
                page.lemma_view();
            }
            let hdr = match page.header() {
                Ok(h) => h,
                Err(_) => {
                    return false;
                },
            };
            if hdr.page_ty == PageKind::Leaf {
                break;
            }
            let cells = match page.get_cells() {
                Ok(c) => c,
                Err(_) => {
                    return false;
                },
            };
            let child = if cells.len() > 0 {
                match cells[0].c_ptr {
                    Some(c) => c,
                    None => {
                        return false;
                    },
                }
            } else {
                hdr.rightmost_ptr
            };
            proof {
                assert(child == child_at(pages[id], 0));
            }
            id = child;
            levels = levels + 1;
            if levels >= u32::MAX as u64 {
                return false;
            }
        }
        (self.pager.next_id as u64) + levels + 2 < u32::MAX as u64
    }
}

} // verus!
