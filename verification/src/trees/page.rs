use vstd::bytes::{
    spec_u16_from_le_bytes,
    spec_u16_to_le_bytes,
    spec_u32_from_le_bytes,
    spec_u32_to_le_bytes,
    spec_u64_from_le_bytes,
    spec_u64_to_le_bytes,
    u16_from_le_bytes,
    u16_to_le_bytes,
    u32_from_le_bytes,
    u32_to_le_bytes,
    u64_from_le_bytes,
    u64_to_le_bytes,
};
use vstd::prelude::*;
use vstd::slice::slice_subrange;

verus! {

/// Size in bytes of one page.
pub const PAGE_SIZE: usize = 4096;

/// Size in bytes of one slot of the slot array: cell offset and cell size.
pub const SLOT_SIZE: usize = 4;

/// Size in bytes of the page header: id, kind, free_start, free_end,
/// total_size, flags, rightmost pointer.
pub const HEADER_SIZE: usize = 4 + 1 + 2 + 2 + 2 + 1 + 4;

/// The role of a page in the tree.
#[derive(Clone, Copy, Debug, PartialEq, Eq, Structural)]
pub enum PageKind {
    /// The root of a tree of more than one level.
    Root,
    /// A node that holds separator keys and child pointers.
    Internal,
    /// A node that holds keys only.
    Leaf,
}

/// The byte that stands for a page kind in the header.
pub open spec fn kind_byte(k: PageKind) -> u8 {
    match k {
        PageKind::Root => 0,
        PageKind::Internal => 1,
        PageKind::Leaf => 2,
    }
}

/// The page kind that a header byte stands for, if any.
pub open spec fn kind_of_byte(b: u8) -> Option<PageKind> {
    if b == 0 {
        Some(PageKind::Root)
    } else if b == 1 {
        Some(PageKind::Internal)
    } else if b == 2 {
        Some(PageKind::Leaf)
    } else {
        None
    }
}

impl PageKind {
    pub fn from_u8(v: u8) -> (r: Option<Self>)
        ensures
            r == kind_of_byte(v),
    {
        match v {
            0 => Some(PageKind::Root),
            1 => Some(PageKind::Internal),
            2 => Some(PageKind::Leaf),
            _ => None,
        }
    }

    pub fn to_u8(self) -> (b: u8)
        ensures
            b == kind_byte(self),
    {
        match self {
            PageKind::Root => 0,
            PageKind::Internal => 1,
            PageKind::Leaf => 2,
        }
    }
}

/// The fixed-size header at the start of every page.
pub struct PageHeader {
    pub id: u32,
    pub page_ty: PageKind,
    pub free_start: u16,
    pub free_end: u16,
    pub total_size: u16,
    pub flags: u8,
    pub rightmost_ptr: u32,
}

/// The little-endian `u16` at byte offset `off`.
pub open spec fn u16_at(s: Seq<u8>, off: int) -> u16 {
    spec_u16_from_le_bytes(s.subrange(off, off + 2))
}

/// The little-endian `u32` at byte offset `off`.
pub open spec fn u32_at(s: Seq<u8>, off: int) -> u32 {
    spec_u32_from_le_bytes(s.subrange(off, off + 4))
}

/// The little-endian `i64` (two's complement) at byte offset `off`.
pub open spec fn i64_at(s: Seq<u8>, off: int) -> i64 {
    spec_u64_from_le_bytes(s.subrange(off, off + 8)) as i64
}

/// The little-endian encoding of an `i64` (two's complement).
pub open spec fn i64_bytes(v: i64) -> Seq<u8> {
    spec_u64_to_le_bytes(v as u64)
}

/// `s` with the bytes from `off` on replaced by `b`.
pub open spec fn splice(s: Seq<u8>, off: int, b: Seq<u8>) -> Seq<u8> {
    s.subrange(0, off) + b + s.subrange(off + b.len(), s.len() as int)
}

/// The sixteen bytes that encode a header.
pub open spec fn header_bytes(h: PageHeader) -> Seq<u8> {
    spec_u32_to_le_bytes(h.id) + seq![kind_byte(h.page_ty)] + spec_u16_to_le_bytes(h.free_start)
        + spec_u16_to_le_bytes(h.free_end) + spec_u16_to_le_bytes(h.total_size) + seq![h.flags]
        + spec_u32_to_le_bytes(h.rightmost_ptr)
}

/// The header that the first sixteen bytes of `s` encode, if the kind byte is
/// valid.
pub open spec fn parse_header(s: Seq<u8>) -> Option<PageHeader> {
    match kind_of_byte(s[4]) {
        Some(k) => Some(
            PageHeader {
                id: u32_at(s, 0),
                page_ty: k,
                free_start: u16_at(s, 5),
                free_end: u16_at(s, 7),
                total_size: u16_at(s, 9),
                flags: s[11],
                rightmost_ptr: u32_at(s, 12),
            },
        ),
        None => None,
    }
}

/// Reading back what `header_bytes` wrote, in front of any other bytes,
/// gives the same header.
pub proof fn lemma_header_roundtrip(h: PageHeader, rest: Seq<u8>)
    ensures
        header_bytes(h).len() == HEADER_SIZE,
        parse_header(header_bytes(h) + rest) == Some(h),
{
    vstd::bytes::lemma_auto_spec_u16_to_from_le_bytes();
    vstd::bytes::lemma_auto_spec_u32_to_from_le_bytes();
    let s = header_bytes(h) + rest;
    assert(s.subrange(0, 4) =~= spec_u32_to_le_bytes(h.id));
    assert(s.subrange(5, 7) =~= spec_u16_to_le_bytes(h.free_start));
    assert(s.subrange(7, 9) =~= spec_u16_to_le_bytes(h.free_end));
    assert(s.subrange(9, 11) =~= spec_u16_to_le_bytes(h.total_size));
    assert(s.subrange(12, 16) =~= spec_u32_to_le_bytes(h.rightmost_ptr));
    assert(s[4] == kind_byte(h.page_ty));
    assert(s[11] == h.flags);
}

/// Copies `bytes` into `buf` from offset `off` on.
fn write_slice(buf: &mut [u8], off: usize, bytes: &[u8])
    requires
        off + bytes@.len() <= old(buf)@.len(),
    ensures
        final(buf)@ == splice(old(buf)@, off as int, bytes@),
{
    let n = bytes.len();
    let blen = buf.len();
    let mut i: usize = 0;
    while i < n
        invariant
            i <= n,
            blen == buf@.len(),
            n == bytes@.len(),
            off + n <= buf@.len(),
            buf@.len() == old(buf)@.len(),
            forall|j: int| 0 <= j < off ==> buf@[j] == old(buf)@[j],
            forall|j: int| off <= j < off + i ==> buf@[j] == bytes@[j - off],
            forall|j: int| off + i <= j < buf@.len() ==> buf@[j] == old(buf)@[j],
        decreases n - i,
    {
        buf[off + i] = bytes[i];
        i = i + 1;
    }
    assert(buf@ =~= splice(old(buf)@, off as int, bytes@));
}

impl PageHeader {
    /// Writes the header into the first sixteen bytes of `buf`.
    pub fn serialize(&self, buf: &mut [u8])
        requires
            old(buf)@.len() >= HEADER_SIZE,
        ensures
            final(buf)@ == splice(old(buf)@, 0, header_bytes(*self)),
    {
        let ghost b0 = buf@;
        let id = u32_to_le_bytes(self.id);
        write_slice(buf, 0, id.as_slice());
        buf[4] = self.page_ty.to_u8();
        let fs = u16_to_le_bytes(self.free_start);
        write_slice(buf, 5, fs.as_slice());
        let fe = u16_to_le_bytes(self.free_end);
        write_slice(buf, 7, fe.as_slice());
        let ts = u16_to_le_bytes(self.total_size);
        write_slice(buf, 9, ts.as_slice());
        buf[11] = self.flags;
        let rp = u32_to_le_bytes(self.rightmost_ptr);
        write_slice(buf, 12, rp.as_slice());
        assert(buf@ =~= splice(b0, 0, header_bytes(*self)));
    }

    /// Reads a header from the first sixteen bytes of `buf`; `None` when the
    /// kind byte is not a valid page kind.
    pub fn deserialize(buf: &[u8]) -> (r: Option<Self>)
        requires
            buf@.len() >= HEADER_SIZE,
        ensures
            r == parse_header(buf@),
    {
        let page_ty = match PageKind::from_u8(buf[4]) {
            Some(k) => k,
            None => {
                return None;
            },
        };
        Some(
            PageHeader {
                id: u32_from_le_bytes(slice_subrange(buf, 0, 4)),
                page_ty,
                free_start: u16_from_le_bytes(slice_subrange(buf, 5, 7)),
                free_end: u16_from_le_bytes(slice_subrange(buf, 7, 9)),
                total_size: u16_from_le_bytes(slice_subrange(buf, 9, 11)),
                flags: buf[11],
                rightmost_ptr: u32_from_le_bytes(slice_subrange(buf, 12, 16)),
            },
        )
    }
}

/// Errors of the page and tree operations.
#[derive(Debug, PartialEq, Eq, Structural)]
pub enum BtreeError {
    /// The header's kind byte is not a valid page kind.
    BadHeader,
    /// The page has no room left for the cell and its slot.
    PageOverflow,
    /// A cell index past the last cell.
    IndexOutOfBounds,
    /// The key to insert is already in the tree.
    AlreadyExists,
    /// The key to remove is not in the tree.
    NotFound,
    /// The descent produced no page.
    NoPage,
    /// The overflowing page is missing from the descent path.
    NoOverflowPage,
    /// A cell of a non-leaf page has no child pointer.
    MissingChildPointer,
    /// The parent does not point at the page that overflowed.
    ParentMissingChild,
    /// The underflowing page has no parent on the descent path.
    NoParent,
    /// The underflowing page is not among its parent's children.
    ChildNotInParent,
}

/// Location of a cell inside its page.
pub struct CellPointer {
    pub cell_offset: u16,
    pub cell_size: u16,
}

/// A decoded cell: a key, and for a non-leaf page the pointer to the child
/// that holds the keys just below it.
#[derive(Clone, Copy, Debug, PartialEq, Eq, Structural)]
pub struct Cell {
    pub key: i64,
    pub c_ptr: Option<u32>,
}

/// Number of bytes a cell occupies on a page of the given kind: the key, and
/// for a non-leaf page a child pointer after it.
pub open spec fn cell_width(k: PageKind) -> int {
    if k == PageKind::Leaf {
        8
    } else {
        12
    }
}

/// Number of slots that the header's `free_start` accounts for.
pub open spec fn slot_count(h: PageHeader) -> int {
    (h.free_start as int - HEADER_SIZE as int) / 4
}

/// Byte offset of slot `i` in the slot array.
pub open spec fn slot_pos(i: int) -> int {
    HEADER_SIZE as int + 4 * i
}

/// Offset of the cell that slot `i` points at.
pub open spec fn slot_off(s: Seq<u8>, i: int) -> int {
    u16_at(s, slot_pos(i)) as int
}

/// The cell that slot `i` points at, read as a cell of a page of kind `k`.
pub open spec fn cell_of(s: Seq<u8>, k: PageKind, i: int) -> Cell {
    Cell {
        key: i64_at(s, slot_off(s, i)),
        c_ptr: if k == PageKind::Leaf {
            None
        } else {
            Some(u32_at(s, slot_off(s, i) + 8))
        },
    }
}

/// The cells of the page that `s` encodes, in slot order.
pub open spec fn cells_of(s: Seq<u8>) -> Seq<Cell> {
    let h = parse_header(s)->0;
    Seq::new(slot_count(h) as nat, |i: int| cell_of(s, h.page_ty, i))
}

/// The layout invariant of a page: a valid header, the slot array between the
/// header and `free_start`, every cell inside `free_end..PAGE_SIZE`, cells
/// that do not overlap, and at least a full cell width used per slot.
pub open spec fn page_wf(s: Seq<u8>) -> bool {
    let h = parse_header(s)->0;
    let n = slot_count(h);
    let w = cell_width(h.page_ty);
    &&& s.len() == PAGE_SIZE
    &&& parse_header(s) is Some
    &&& HEADER_SIZE <= h.free_start <= h.free_end <= PAGE_SIZE
    &&& (h.free_start - HEADER_SIZE) % (SLOT_SIZE as int) == 0
    &&& PAGE_SIZE - h.free_end >= w * n
    &&& forall|i: int|
        0 <= i < n ==> h.free_end <= #[trigger] slot_off(s, i) && slot_off(s, i) + w <= PAGE_SIZE
    &&& forall|i: int, j: int|
        0 <= i < j < n ==> #[trigger] slot_off(s, i) + w <= #[trigger] slot_off(s, j) || slot_off(
            s,
            j,
        ) + w <= slot_off(s, i)
}

/// Binary search for the first position in `lo..hi` whose key is not below
/// `k`, halving the range as the page's slot search does.
pub open spec fn lower_bound(cells: Seq<Cell>, k: i64, lo: int, hi: int) -> int
    decreases hi - lo,
{
    if lo >= hi {
        lo
    } else {
        let mid = lo + (hi - lo) / 2;
        if cells[mid].key < k {
            lower_bound(cells, k, mid + 1, hi)
        } else {
            lower_bound(cells, k, lo, mid)
        }
    }
}

/// Where a cell with key `k` goes among `cells`.
pub open spec fn insert_pos(cells: Seq<Cell>, k: i64) -> int {
    lower_bound(cells, k, 0, cells.len() as int)
}

/// Keys in non-decreasing order.
pub open spec fn keys_sorted(cells: Seq<Cell>) -> bool {
    forall|i: int, j: int| 0 <= i <= j < cells.len() ==> #[trigger] cells[i].key <= #[trigger] cells[j].key
}

/// Keys in increasing order.
pub open spec fn keys_strictly_sorted(cells: Seq<Cell>) -> bool {
    forall|i: int, j: int| 0 <= i < j < cells.len() ==> #[trigger] cells[i].key < #[trigger] cells[j].key
}

/// The cell that a page of kind `k` reads back from the bytes `b`.
pub open spec fn cell_from_bytes(b: Seq<u8>, k: PageKind) -> Cell {
    Cell {
        key: spec_u64_from_le_bytes(b.subrange(0, 8)) as i64,
        c_ptr: if k == PageKind::Leaf {
            None
        } else {
            Some(spec_u32_from_le_bytes(b.subrange(8, 12)))
        },
    }
}

/// The bytes that encode a cell: the key, then the child pointer if any.
pub open spec fn cell_bytes(c: Cell) -> Seq<u8> {
    match c.c_ptr {
        Some(p) => i64_bytes(c.key) + spec_u32_to_le_bytes(p),
        None => i64_bytes(c.key),
    }
}

/// How a cell reads back from a page of kind `k`.
pub open spec fn cell_as(c: Cell, k: PageKind) -> Cell {
    Cell {
        key: c.key,
        c_ptr: if k == PageKind::Leaf {
            None
        } else {
            c.c_ptr
        },
    }
}

/// Every cell has a child pointer exactly when the page kind is not a leaf.
pub open spec fn kind_consistent(cells: Seq<Cell>, k: PageKind) -> bool {
    forall|i: int| 0 <= i < cells.len() ==> ((#[trigger] cells[i]).c_ptr is Some) == (k != PageKind::Leaf)
}

/// Whether a cell of `len` bytes and its slot fit into the free space.
pub open spec fn room_for(h: PageHeader, len: int) -> bool {
    len <= h.free_end && h.free_end - len >= h.free_start + SLOT_SIZE
}

/// The cells of a page of kind `k` that was filled, in order, with `input`:
/// each cell goes to its `insert_pos` among those before it.
pub open spec fn filled(input: Seq<Cell>, k: PageKind) -> Seq<Cell>
    decreases input.len(),
{
    if input.len() == 0 {
        Seq::empty()
    } else {
        let prev = filled(input.drop_last(), k);
        let c = cell_as(input.last(), k);
        prev.insert(insert_pos(prev, c.key), c)
    }
}

/// The bytes needed for the cells of `input` and their slots.
pub open spec fn fill_size(input: Seq<Cell>) -> int
    decreases input.len(),
{
    if input.len() == 0 {
        0
    } else {
        fill_size(input.drop_last()) + cell_bytes(input.last()).len() + SLOT_SIZE
    }
}

/// The binary search stays inside its range.
proof fn lemma_lower_bound_range(cells: Seq<Cell>, k: i64, lo: int, hi: int)
    requires
        0 <= lo <= hi <= cells.len(),
    ensures
        lo <= lower_bound(cells, k, lo, hi) <= hi,
    decreases hi - lo,
{
    if lo < hi {
        let mid = lo + (hi - lo) / 2;
        if cells[mid].key < k {
            lemma_lower_bound_range(cells, k, mid + 1, hi);
        } else {
            lemma_lower_bound_range(cells, k, lo, mid);
        }
    }
}

/// On sorted keys the binary search finds the first key that is not below
/// `k`.
pub proof fn lemma_lower_bound_sorted(cells: Seq<Cell>, k: i64, lo: int, hi: int)
    requires
        0 <= lo <= hi <= cells.len(),
        keys_sorted(cells),
        forall|i: int| 0 <= i < lo ==> #[trigger] cells[i].key < k,
        forall|i: int| hi <= i < cells.len() ==> #[trigger] cells[i].key >= k,
    ensures
        ({
            let p = lower_bound(cells, k, lo, hi);
            &&& lo <= p <= hi
            &&& forall|i: int| 0 <= i < p ==> #[trigger] cells[i].key < k
            &&& forall|i: int| p <= i < cells.len() ==> #[trigger] cells[i].key >= k
        }),
    decreases hi - lo,
{
    if lo < hi {
        let mid = lo + (hi - lo) / 2;
        if cells[mid].key < k {
            assert forall|i: int| 0 <= i < mid + 1 implies #[trigger] cells[i].key < k by {
                if i >= lo {
                    assert(cells[i].key <= cells[mid].key);
                }
            }
            lemma_lower_bound_sorted(cells, k, mid + 1, hi);
        } else {
            assert forall|i: int| mid <= i < cells.len() implies #[trigger] cells[i].key >= k by {
                if i < hi {
                    assert(cells[mid].key <= cells[i].key);
                }
            }
            lemma_lower_bound_sorted(cells, k, lo, mid);
        }
    }
}

/// Filling a page with cells in increasing key order keeps them in that
/// order.
pub proof fn lemma_filled_sorted(input: Seq<Cell>, k: PageKind)
    requires
        keys_strictly_sorted(input),
    ensures
        filled(input, k) == input.map_values(|c: Cell| cell_as(c, k)),
    decreases input.len(),
{
    if input.len() > 0 {
        let init = input.drop_last();
        assert(keys_strictly_sorted(init));
        lemma_filled_sorted(init, k);
        let prev = filled(init, k);
        let c = cell_as(input.last(), k);
        assert(keys_sorted(prev));
        assert forall|i: int| 0 <= i < prev.len() implies #[trigger] prev[i].key < c.key by {
            assert(input[i].key < input[input.len() - 1].key);
        }
        lemma_lower_bound_sorted(prev, c.key, 0, prev.len() as int);
        assert(input.map_values(|c: Cell| cell_as(c, k)) =~= prev.insert(prev.len() as int, c));
    }
}

/// Two byte sequences that agree on a range agree on every value read from
/// inside it.
proof fn lemma_same_range(s1: Seq<u8>, s2: Seq<u8>, lo: int, hi: int)
    requires
        0 <= lo <= hi <= s1.len(),
        hi <= s2.len(),
        forall|j: int| lo <= j < hi ==> s1[j] == s2[j],
    ensures
        forall|a: int, b: int| lo <= a <= b <= hi ==> #[trigger] s1.subrange(a, b) == s2.subrange(a, b),
{
    assert forall|a: int, b: int| lo <= a <= b <= hi implies #[trigger] s1.subrange(a, b)
        == s2.subrange(a, b) by {
        assert(s1.subrange(a, b) =~= s2.subrange(a, b));
    }
}

/// Rewriting the header leaves every other byte, and so the slot array and
/// the cells, as they were.
proof fn lemma_header_rewrite(s1: Seq<u8>, h: PageHeader)
    requires
        s1.len() == PAGE_SIZE,
    ensures
        ({
            let s2 = splice(s1, 0, header_bytes(h));
            &&& s2.len() == PAGE_SIZE
            &&& parse_header(s2) == Some(h)
            &&& forall|j: int| HEADER_SIZE <= j < PAGE_SIZE ==> s2[j] == s1[j]
            &&& forall|i: int, k: PageKind|
                0 <= i && slot_pos(i) + SLOT_SIZE <= PAGE_SIZE && HEADER_SIZE <= slot_off(s1, i)
                    && slot_off(s1, i) + cell_width(k) <= PAGE_SIZE ==> #[trigger] cell_of(s2, k, i)
                    == cell_of(s1, k, i) && slot_off(s2, i) == slot_off(s1, i)
        }),
{
    let s2 = splice(s1, 0, header_bytes(h));
    lemma_header_roundtrip(h, s1.subrange(HEADER_SIZE as int, PAGE_SIZE as int));
    assert(s2 =~= header_bytes(h) + s1.subrange(HEADER_SIZE as int, PAGE_SIZE as int));
    lemma_same_range(s1, s2, HEADER_SIZE as int, PAGE_SIZE as int);
}

/// A fresh header (no slots, all space free) over any bytes makes a well
/// formed page without cells.
proof fn lemma_fresh_header(s1: Seq<u8>, h: PageHeader)
    requires
        s1.len() == PAGE_SIZE,
        h.free_start == HEADER_SIZE,
        h.free_end == PAGE_SIZE,
    ensures
        page_wf(splice(s1, 0, header_bytes(h))),
        parse_header(splice(s1, 0, header_bytes(h))) == Some(h),
        cells_of(splice(s1, 0, header_bytes(h))) == Seq::<Cell>::empty(),
{
    let s2 = splice(s1, 0, header_bytes(h));
    lemma_header_rewrite(s1, h);
    assert(slot_count(h) == 0);
    assert(cells_of(s2) =~= Seq::<Cell>::empty());
}

/// A page whose header was rewritten keeping the slot array bounds and the
/// cell width is still well formed and reads the same cells (as cells of the
/// new kind).
proof fn lemma_header_rewrite_wf(s1: Seq<u8>, h: PageHeader)
    requires
        page_wf(s1),
        h.free_start == parse_header(s1)->0.free_start,
        h.free_end == parse_header(s1)->0.free_end,
        cell_width(h.page_ty) == cell_width(parse_header(s1)->0.page_ty),
    ensures
        page_wf(splice(s1, 0, header_bytes(h))),
        cells_of(splice(s1, 0, header_bytes(h))) == cells_of(s1).map_values(
            |c: Cell| cell_as(c, h.page_ty),
        ),
{
    let s2 = splice(s1, 0, header_bytes(h));
    let h1 = parse_header(s1)->0;
    lemma_header_rewrite(s1, h);
    let n = slot_count(h1);
    assert forall|i: int| 0 <= i < n implies #[trigger] slot_off(s2, i) == slot_off(s1, i) && cell_of(
        s2,
        h.page_ty,
        i,
    ) == cell_of(s1, h.page_ty, i) by {
        assert(slot_pos(i) + SLOT_SIZE <= h1.free_start);
        assert(slot_off(s1, i) >= h1.free_end);
        assert(slot_off(s1, i) + cell_width(h.page_ty) <= PAGE_SIZE);
    }
    assert(cells_of(s2) =~= cells_of(s1).map_values(|c: Cell| cell_as(c, h.page_ty)));
}

/// Overwriting bytes inside the cell of slot `idx` keeps the page well
/// formed and changes no other cell.
proof fn lemma_cell_write(s1: Seq<u8>, idx: int, d: int, b: Seq<u8>)
    requires
        page_wf(s1),
        0 <= idx < slot_count(parse_header(s1)->0),
        0 <= d,
        d + b.len() <= cell_width(parse_header(s1)->0.page_ty),
    ensures
        ({
            let s2 = splice(s1, slot_off(s1, idx) + d, b);
            let h = parse_header(s1)->0;
            &&& page_wf(s2)
            &&& parse_header(s2) == parse_header(s1)
            &&& slot_off(s2, idx) == slot_off(s1, idx)
            &&& cells_of(s2).len() == cells_of(s1).len()
            &&& forall|j: int|
                0 <= j < slot_count(h) && j != idx ==> #[trigger] cells_of(s2)[j] == cells_of(s1)[j]
            &&& s2.subrange(slot_off(s1, idx) + d, slot_off(s1, idx) + d + b.len()) == b
            &&& forall|x: int|
                slot_off(s1, idx) <= x < slot_off(s1, idx) + cell_width(h.page_ty) && !(slot_off(
                    s1,
                    idx,
                ) + d <= x < slot_off(s1, idx) + d + b.len()) ==> s2[x] == s1[x]
        }),
{
    let h = parse_header(s1)->0;
    let n = slot_count(h);
    let w = cell_width(h.page_ty);
    let o = slot_off(s1, idx);
    let lo = o + d;
    let hi = o + d + b.len();
    let s2 = splice(s1, lo, b);
    assert(h.free_end <= o && o + w <= PAGE_SIZE);
    assert(s2.len() == PAGE_SIZE);
    assert forall|x: int| 0 <= x < PAGE_SIZE && !(lo <= x < hi) implies s2[x] == s1[x] by {
        if x < lo {
        } else {
        }
    }
    lemma_same_range(s1, s2, 0, h.free_end as int);
    assert(parse_header(s2) == parse_header(s1)) by {
        assert(s2[4] == s1[4]);
        assert(s2[11] == s1[11]);
    }
    assert forall|j: int| 0 <= j < n implies #[trigger] slot_off(s2, j) == slot_off(s1, j) by {
        assert(slot_pos(j) + SLOT_SIZE <= h.free_start);
    }
    assert forall|j: int| 0 <= j < n && j != idx implies #[trigger] cells_of(s2)[j] == cells_of(
        s1,
    )[j] by {
        let oj = slot_off(s1, j);
        assert(oj + w <= o || o + w <= oj);
        assert(oj + w <= PAGE_SIZE);
        assert forall|x: int| oj <= x < oj + w implies s2[x] == s1[x] by {}
        lemma_same_range(s1, s2, oj, oj + w);
    }
    assert(s2.subrange(lo, hi) =~= b);
}

/// Reinterpreting an `i64` as a `u64` and back gives the same value.
proof fn lemma_i64_u64_roundtrip(k: i64)
    ensures
        (k as u64) as i64 == k,
{
    assert((k as u64) as i64 == k) by (bit_vector);
}

/// The cells of a page after a cell `c` was written below the old free space,
/// its slot put at `idx` with the later slots moved up by one, and the header
/// updated: the old cells around a new one at `idx`.
proof fn lemma_add_cell_bytes(s0: Seq<u8>, s2: Seq<u8>, c: Seq<u8>, idx: int)
    requires
        page_wf(s0),
        8 <= c.len(),
        room_for(parse_header(s0)->0, c.len() as int),
        0 <= idx <= slot_count(parse_header(s0)->0),
        s2.len() == PAGE_SIZE,
        parse_header(s2) == Some(
            PageHeader {
                free_start: (parse_header(s0)->0.free_start + SLOT_SIZE) as u16,
                free_end: (parse_header(s0)->0.free_end - c.len()) as u16,
                ..parse_header(s0)->0
            },
        ),
        forall|j: int| HEADER_SIZE <= j < slot_pos(idx) ==> s2[j] == s0[j],
        u16_at(s2, slot_pos(idx)) == parse_header(s0)->0.free_end - c.len(),
        forall|j: int|
            slot_pos(idx) + SLOT_SIZE <= j < slot_pos(slot_count(parse_header(s0)->0)) + SLOT_SIZE
                ==> s2[j] == s0[j - SLOT_SIZE],
        s2.subrange(
            parse_header(s0)->0.free_end - c.len(),
            parse_header(s0)->0.free_end as int,
        ) == c,
        forall|j: int| parse_header(s0)->0.free_end <= j < PAGE_SIZE ==> s2[j] == s0[j],
    ensures
        ({
            let h0 = parse_header(s0)->0;
            let n = slot_count(h0);
            let k = h0.page_ty;
            &&& cells_of(s2).len() == n + 1
            &&& forall|i: int| 0 <= i < idx ==> #[trigger] cells_of(s2)[i] == cells_of(s0)[i]
            &&& forall|i: int| idx < i <= n ==> #[trigger] cells_of(s2)[i] == cells_of(s0)[i - 1]
            &&& cells_of(s2)[idx].key == cell_from_bytes(c, k).key
            &&& c.len() >= cell_width(k) ==> page_wf(s2) && cells_of(s2) == cells_of(s0).insert(
                idx,
                cell_from_bytes(c, k),
            )
        }),
{
    let h0 = parse_header(s0)->0;
    let h2 = parse_header(s2)->0;
    let n = slot_count(h0);
    let k = h0.page_ty;
    let w = cell_width(k);
    let len = c.len() as int;
    let start = h0.free_end - len;
    assert(slot_count(h2) == n + 1);
    assert(slot_pos(n) == h0.free_start);
    // slot offsets
    assert forall|i: int| 0 <= i < idx implies #[trigger] slot_off(s2, i) == slot_off(s0, i) by {
        let p = slot_pos(i);
        assert(s2.subrange(p, p + 2) =~= s0.subrange(p, p + 2));
    }
    assert forall|i: int| idx < i <= n implies #[trigger] slot_off(s2, i) == slot_off(s0, i - 1) by {
        let p = slot_pos(i);
        assert(slot_pos(i - 1) == p - 4);
        assert(s2.subrange(p, p + 2) =~= s0.subrange(p - 4, p - 2));
    }
    assert(slot_off(s2, idx) == start);
    // cells
    assert forall|i: int| 0 <= i < idx implies #[trigger] cells_of(s2)[i] == cells_of(s0)[i] by {
        let o = slot_off(s0, i);
        assert(h0.free_end <= o && o + w <= PAGE_SIZE);
        assert(s2.subrange(o, o + 8) =~= s0.subrange(o, o + 8));
        if k != PageKind::Leaf {
            assert(s2.subrange(o + 8, o + 12) =~= s0.subrange(o + 8, o + 12));
        }
    }
    assert forall|i: int| idx < i <= n implies #[trigger] cells_of(s2)[i] == cells_of(s0)[i - 1] by {
        let o = slot_off(s0, i - 1);
        assert(h0.free_end <= o && o + w <= PAGE_SIZE);
        assert(s2.subrange(o, o + 8) =~= s0.subrange(o, o + 8));
        if k != PageKind::Leaf {
            assert(s2.subrange(o + 8, o + 12) =~= s0.subrange(o + 8, o + 12));
        }
    }
    assert(s2.subrange(start, start + 8) =~= c.subrange(0, 8)) by {
        assert forall|x: int| 0 <= x < 8 implies s2.subrange(start, start + 8)[x] == c.subrange(
            0,
            8,
        )[x] by {
            assert(s2.subrange(start, start + len)[x] == c[x]);
        }
    }
    assert(cells_of(s2)[idx].key == cell_from_bytes(c, k).key);
    if len >= w {
        if k != PageKind::Leaf {
            assert(s2.subrange(start + 8, start + 12) =~= c.subrange(8, 12)) by {
                assert forall|x: int| 0 <= x < 4 implies s2.subrange(start + 8, start + 12)[x]
                    == c.subrange(8, 12)[x] by {
                    assert(s2.subrange(start, start + len)[x + 8] == c[x + 8]);
                }
            }
        }
        assert(cells_of(s2)[idx] == cell_from_bytes(c, k));
        assert(cells_of(s2) =~= cells_of(s0).insert(idx, cell_from_bytes(c, k)));
        assert forall|i: int| 0 <= i < n + 1 implies h2.free_end <= #[trigger] slot_off(s2, i)
            && slot_off(s2, i) + w <= PAGE_SIZE by {
            if i < idx {
                assert(h0.free_end <= slot_off(s0, i));
            } else if i > idx {
                assert(h0.free_end <= slot_off(s0, i - 1));
            }
        }
        assert forall|i: int, j: int| 0 <= i < j < n + 1 implies #[trigger] slot_off(s2, i) + w
            <= #[trigger] slot_off(s2, j) || slot_off(s2, j) + w <= slot_off(s2, i) by {
            let fi = if i < idx {
                i
            } else {
                i - 1
            };
            let fj = if j < idx {
                j
            } else {
                j - 1
            };
            if i == idx {
                assert(h0.free_end <= slot_off(s0, fj));
            } else if j == idx {
                assert(h0.free_end <= slot_off(s0, fi));
            } else {
                assert(slot_off(s0, fi) + w <= slot_off(s0, fj) || slot_off(s0, fj) + w <= slot_off(
                    s0,
                    fi,
                ));
            }
        }
        assert(page_wf(s2));
    }
}

/// The longest prefix of `input` whose cells and slots fit into a page.
pub open spec fn fit_len(input: Seq<Cell>) -> nat
    decreases input.len(),
{
    if fill_size(input) <= PAGE_SIZE - HEADER_SIZE || input.len() == 0 {
        input.len()
    } else {
        fit_len(input.drop_last())
    }
}

/// A cell's encoding reads back as the cell (as seen from a page of kind `k`).
pub proof fn lemma_cell_bytes_roundtrip(c: Cell, k: PageKind)
    requires
        k != PageKind::Leaf ==> c.c_ptr is Some,
    ensures
        cell_bytes(c).len() == (if c.c_ptr is Some {
            12int
        } else {
            8int
        }),
        cell_from_bytes(cell_bytes(c), k) == cell_as(c, k),
{
    vstd::bytes::lemma_auto_spec_u64_to_from_le_bytes();
    vstd::bytes::lemma_auto_spec_u32_to_from_le_bytes();
    lemma_i64_u64_roundtrip(c.key);
    let b = cell_bytes(c);
    assert(b.subrange(0, 8) =~= i64_bytes(c.key));
    if c.c_ptr is Some {
        assert(b.subrange(8, 12) =~= spec_u32_to_le_bytes(c.c_ptr->0));
    }
}

/// The space needed by a longer prefix is at least that of a shorter one.
proof fn lemma_fill_size_monotone(input: Seq<Cell>, i: int, j: int)
    requires
        0 <= i <= j <= input.len(),
    ensures
        fill_size(input.take(i)) <= fill_size(input.take(j)),
    decreases j - i,
{
    if i < j {
        lemma_fill_size_monotone(input, i, j - 1);
        assert(input.take(j).drop_last() =~= input.take(j - 1));
    }
}

/// `fit_len` is the length of the longest prefix that fits.
proof fn lemma_fit_len(input: Seq<Cell>, k: int)
    requires
        0 <= k <= input.len(),
        fill_size(input.take(k)) <= PAGE_SIZE - HEADER_SIZE,
        k < input.len() ==> fill_size(input.take(k + 1)) > PAGE_SIZE - HEADER_SIZE,
    ensures
        fit_len(input) == k,
    decreases input.len(),
{
    if k == input.len() {
        assert(input.take(k) =~= input);
    } else {
        lemma_fill_size_monotone(input, k + 1, input.len() as int);
        assert(input.take(input.len() as int) =~= input);
        let init = input.drop_last();
        assert forall|m: int| 0 <= m <= init.len() implies #[trigger] init.take(m) == input.take(
            m,
        ) by {
            assert(init.take(m) =~= input.take(m));
        }
        lemma_fit_len(init, k);
    }
}

/// Cells that all take `w` bytes need `w` bytes and a slot each.
proof fn lemma_fill_size_uniform(input: Seq<Cell>, w: int)
    requires
        forall|i: int| 0 <= i < input.len() ==> #[trigger] cell_bytes(input[i]).len() == w,
    ensures
        fill_size(input) == input.len() * (w + SLOT_SIZE),
    decreases input.len(),
{
    if input.len() > 0 {
        let init = input.drop_last();
        assert forall|i: int| 0 <= i < init.len() implies #[trigger] cell_bytes(init[i]).len() == w by {
            assert(init[i] == input[i]);
        }
        lemma_fill_size_uniform(init, w);
        assert(cell_bytes(input.last()).len() == w);
        assert(input.len() * (w + SLOT_SIZE) == init.len() * (w + SLOT_SIZE) + (w + SLOT_SIZE))
            by (nonlinear_arith)
            requires
                input.len() == init.len() + 1,
        ;
    }
}

/// The little-endian bytes of an `i64`: the cell of a leaf holding it.
pub fn i64_to_bytes(v: i64) -> (b: Vec<u8>)
    ensures
        b@ == i64_bytes(v),
        b@.len() == 8,
        cell_from_bytes(b@, PageKind::Leaf) == (Cell { key: v, c_ptr: None }),
{
    let b = u64_to_le_bytes(v as u64);
    proof {
        vstd::bytes::lemma_auto_spec_u64_to_from_le_bytes();
        lemma_i64_u64_roundtrip(v);
        assert(b@.subrange(0, 8) =~= b@);
    }
    b
}

/// Encodes a cell as the bytes that a page stores for it.
pub fn cell_encoding(c: &Cell) -> (b: Vec<u8>)
    ensures
        b@ == cell_bytes(*c),
{
    let mut buf = u64_to_le_bytes(c.key as u64);
    match c.c_ptr {
        Some(p) => {
            let mut pb = u32_to_le_bytes(p);
            buf.append(&mut pb);
        },
        None => {},
    }
    buf
}

/// Reads the little-endian `u16` at `off`.
fn read_u16(data: &[u8; PAGE_SIZE], off: usize) -> (r: u16)
    requires
        off + 2 <= PAGE_SIZE,
    ensures
        r == u16_at(data@, off as int),
{
    u16_from_le_bytes(slice_subrange(data.as_slice(), off, off + 2))
}

/// Reads the little-endian `u32` at `off`.
fn read_u32(data: &[u8; PAGE_SIZE], off: usize) -> (r: u32)
    requires
        off + 4 <= PAGE_SIZE,
    ensures
        r == u32_at(data@, off as int),
{
    u32_from_le_bytes(slice_subrange(data.as_slice(), off, off + 4))
}

/// Reads the little-endian `i64` at `off`.
fn read_i64(data: &[u8; PAGE_SIZE], off: usize) -> (r: i64)
    requires
        off + 8 <= PAGE_SIZE,
    ensures
        r == i64_at(data@, off as int),
{
    u64_from_le_bytes(slice_subrange(data.as_slice(), off, off + 8)) as i64
}

/// A page of the tree file: header, slot array, free space, cells.
pub struct Page {
    data: [u8; PAGE_SIZE],
}

impl Page {
    /// The bytes of the page.
    pub closed spec fn bytes(self) -> Seq<u8> {
        self.data@
    }

    /// The page's header (meaningful when it parses).
    pub closed spec fn hdr(self) -> PageHeader {
        parse_header(self.data@)->0
    }

    /// The page's cells in slot order.
    pub closed spec fn cells(self) -> Seq<Cell> {
        cells_of(self.data@)
    }

    /// The page satisfies the layout invariant.
    pub closed spec fn wf(self) -> bool {
        page_wf(self.data@)
    }

    /// The header of a well-formed page parses.
    pub proof fn lemma_header_parses(self)
        requires
            self.wf(),
        ensures
            parse_header(self.bytes()) is Some,
    {
    }

    /// The page's views read from its bytes: the header, the cells and the
    /// layout invariant.
    pub proof fn lemma_bytes_view(self)
        ensures
            self.bytes().len() == PAGE_SIZE,
            self.hdr() == parse_header(self.bytes())->0,
            self.cells() == cells_of(self.bytes()),
            self.wf() == page_wf(self.bytes()),
    {
    }

    /// What the layout invariant says of the decoded view: the slot array
    /// holds one slot per cell, the cells fit, and a cell has a child pointer
    /// exactly when the page is not a leaf.
    pub proof fn lemma_view(self)
        requires
            self.wf(),
        ensures
            self.hdr().free_start == HEADER_SIZE + 4 * self.cells().len(),
            self.hdr().free_start <= self.hdr().free_end <= PAGE_SIZE,
            PAGE_SIZE - self.hdr().free_end >= cell_width(self.hdr().page_ty) * self.cells().len(),
            forall|i: int|
                0 <= i < self.cells().len() ==> ((#[trigger] self.cells()[i]).c_ptr is Some) == (
                self.hdr().page_ty != PageKind::Leaf),
    {
    }

    /// A page holding the given bytes.
    pub fn from_bytes(bytes: &[u8]) -> (p: Page)
        requires
            bytes@.len() == PAGE_SIZE,
        ensures
            p.bytes() == bytes@,
    {
        let mut data = [0u8; PAGE_SIZE];
        let mut i: usize = 0;
        while i < PAGE_SIZE
            invariant
                i <= PAGE_SIZE,
                bytes@.len() == PAGE_SIZE,
                data@.len() == PAGE_SIZE,
                forall|j: int| 0 <= j < i ==> data@[j] == bytes@[j],
            decreases PAGE_SIZE - i,
        {
            data[i] = bytes[i];
            i = i + 1;
        }
        let p = Page { data };
        assert(p.data@ =~= bytes@);
        p
    }

    /// A copy of the page's bytes.
    pub fn to_bytes(&self) -> (b: Vec<u8>)
        ensures
            b@ == self.bytes(),
    {
        vstd::slice::slice_to_vec(self.data.as_slice())
    }

    /// A page of zero bytes.
    pub fn zeroed() -> (p: Page)
        ensures
            p.bytes() == Seq::new(PAGE_SIZE as nat, |i: int| 0u8),
    {
        let p = Page { data: [0u8; PAGE_SIZE] };
        assert(p.data@ =~= Seq::new(PAGE_SIZE as nat, |i: int| 0u8));
        p
    }

    /// Decodes the header; fails when its kind byte is invalid.
    pub fn header(&self) -> (r: Result<PageHeader, BtreeError>)
        ensures
            r == (match parse_header(self.bytes()) {
                Some(h) => Ok::<PageHeader, BtreeError>(h),
                None => Err(BtreeError::BadHeader),
            }),
            self.wf() ==> r == Ok::<PageHeader, BtreeError>(self.hdr()),
    {
        match PageHeader::deserialize(self.data.as_slice()) {
            Some(h) => Ok(h),
            None => Err(BtreeError::BadHeader),
        }
    }

    /// The slot at index `i`.
    pub fn slot(&self, i: u16) -> (c: CellPointer)
        requires
            slot_pos(i as int) + SLOT_SIZE <= PAGE_SIZE,
        ensures
            c.cell_offset == u16_at(self.bytes(), slot_pos(i as int)),
            c.cell_size == u16_at(self.bytes(), slot_pos(i as int) + 2),
    {
        let off = HEADER_SIZE + i as usize * SLOT_SIZE;
        CellPointer { cell_offset: read_u16(&self.data, off), cell_size: read_u16(&self.data, off + 2) }
    }

    /// The raw bytes of the cell that slot `i` points at.
    pub fn cell(&self, i: u16) -> (c: &[u8])
        requires
            slot_pos(i as int) + SLOT_SIZE <= PAGE_SIZE,
            u16_at(self.bytes(), slot_pos(i as int)) + u16_at(self.bytes(), slot_pos(i as int) + 2)
                <= PAGE_SIZE,
        ensures
            c@ == self.bytes().subrange(
                u16_at(self.bytes(), slot_pos(i as int)) as int,
                u16_at(self.bytes(), slot_pos(i as int)) + u16_at(self.bytes(), slot_pos(i as int) + 2),
            ),
    {
        let s = self.slot(i);
        let start = s.cell_offset as usize;
        slice_subrange(self.data.as_slice(), start, start + s.cell_size as usize)
    }

    /// Number of slots in the slot array.
    pub fn num_slots(&mut self) -> (n: u16)
        requires
            parse_header(old(self).bytes()) is Some,
            parse_header(old(self).bytes())->0.free_start >= HEADER_SIZE,
        ensures
            *final(self) == *old(self),
            n == slot_count(parse_header(old(self).bytes())->0),
    {
        let hdr = match self.header() {
            Ok(h) => h,
            Err(_) => {
                return 0;
            },
        };
        (hdr.free_start - HEADER_SIZE as u16) / SLOT_SIZE as u16
    }

    /// Decodes all cells in slot order; fails when the header does not parse.
    pub fn get_cells(&self) -> (r: Result<Vec<Cell>, BtreeError>)
        requires
            parse_header(self.bytes()) is None || self.wf(),
        ensures
            parse_header(self.bytes()) is None ==> r == Err::<Vec<Cell>, BtreeError>(
                BtreeError::BadHeader,
            ),
            self.wf() ==> r is Ok && r->Ok_0@ == self.cells(),
    {
        let p_hdr = match self.header() {
            Ok(h) => h,
            Err(e) => {
                return Err(e);
            },
        };
        let range = ((p_hdr.free_start as u32 - HEADER_SIZE as u32) / 4) as u16;
        let mut cells: Vec<Cell> = Vec::with_capacity(range as usize);
        let ghost s = self.data@;
        let ghost k = p_hdr.page_ty;
        let mut i: u16 = 0;
        while i < range
            invariant
                page_wf(s),
                s == self.data@,
                p_hdr == parse_header(s)->0,
                k == p_hdr.page_ty,
                range == slot_count(p_hdr),
                i <= range,
                cells@ == Seq::new(i as nat, |j: int| cell_of(s, k, j)),
            decreases range - i,
        {
            let slot = self.slot(i);
            let start = slot.cell_offset as usize;
            assert(slot_off(s, i as int) == start);
            let key = read_i64(&self.data, start);
            let c_ptr = if p_hdr.page_ty == PageKind::Leaf {
                None
            } else {
                Some(read_u32(&self.data, start + 8))
            };
            cells.push(Cell { key, c_ptr });
            i = i + 1;
            assert(cells@ =~= Seq::new(i as nat, |j: int| cell_of(s, k, j)));
        }
        assert(cells@ =~= cells_of(s));
        Ok(cells)
    }

    /// Writes `hdr` over the page's header.
    fn write_header(&mut self, hdr: &PageHeader)
        ensures
            final(self).bytes() == splice(old(self).bytes(), 0, header_bytes(*hdr)),
    {
        hdr.serialize(&mut self.data);
    }

    /// Sets the pointer to the rightmost child.
    pub fn set_rightmost_ptr(&mut self, ptr: u32) -> (r: Result<(), BtreeError>)
        ensures
            parse_header(old(self).bytes()) is None ==> r == Err::<(), BtreeError>(
                BtreeError::BadHeader,
            ) && *final(self) == *old(self),
            parse_header(old(self).bytes()) is Some ==> {
                &&& r is Ok
                &&& final(self).bytes() == splice(
                    old(self).bytes(),
                    0,
                    header_bytes(PageHeader { rightmost_ptr: ptr, ..old(self).hdr() }),
                )
            },
            old(self).wf() ==> {
                &&& final(self).wf()
                &&& final(self).hdr() == PageHeader { rightmost_ptr: ptr, ..old(self).hdr() }
                &&& final(self).cells() == old(self).cells()
            },
    {
        let mut hdr = match self.header() {
            Ok(h) => h,
            Err(e) => {
                return Err(e);
            },
        };
        hdr.rightmost_ptr = ptr;
        proof {
            lemma_header_rewrite(self.data@, hdr);
            if page_wf(self.data@) {
                lemma_header_rewrite_wf(self.data@, hdr);
                assert(cells_of(self.data@).map_values(|c: Cell| cell_as(c, hdr.page_ty))
                    =~= cells_of(self.data@));
            }
        }
        self.write_header(&hdr);
        Ok(())
    }

    /// Sets the page kind.
    pub fn set_page_ty(&mut self, ty: PageKind) -> (r: Result<(), BtreeError>)
        ensures
            parse_header(old(self).bytes()) is None ==> r == Err::<(), BtreeError>(
                BtreeError::BadHeader,
            ) && *final(self) == *old(self),
            parse_header(old(self).bytes()) is Some ==> {
                &&& r is Ok
                &&& final(self).bytes() == splice(
                    old(self).bytes(),
                    0,
                    header_bytes(PageHeader { page_ty: ty, ..old(self).hdr() }),
                )
            },
            old(self).wf() && cell_width(ty) == cell_width(old(self).hdr().page_ty) ==> {
                &&& final(self).wf()
                &&& final(self).hdr() == PageHeader { page_ty: ty, ..old(self).hdr() }
                &&& final(self).cells() == old(self).cells().map_values(|c: Cell| cell_as(c, ty))
            },
    {
        let mut hdr = match self.header() {
            Ok(h) => h,
            Err(e) => {
                return Err(e);
            },
        };
        hdr.page_ty = ty;
        proof {
            lemma_header_rewrite(self.data@, hdr);
            if page_wf(self.data@) && cell_width(ty) == cell_width(parse_header(self.data@)->0.page_ty) {
                lemma_header_rewrite_wf(self.data@, hdr);
            }
        }
        self.write_header(&hdr);
        Ok(())
    }

    /// Points cell `idx` at another child page.
    pub fn set_child_ptr_at(&mut self, idx: usize, new_ptr: u32) -> (r: Result<(), BtreeError>)
        requires
            (old(self).wf() && idx < old(self).cells().len() && old(self).hdr().page_ty
                != PageKind::Leaf) || (slot_pos(idx as u16 as int) + SLOT_SIZE <= PAGE_SIZE
                && slot_off(old(self).bytes(), idx as u16 as int) + 12 <= PAGE_SIZE),
        ensures
            r is Ok,
            final(self).bytes() == splice(
                old(self).bytes(),
                slot_off(old(self).bytes(), idx as u16 as int) + 8,
                spec_u32_to_le_bytes(new_ptr),
            ),
            old(self).wf() && idx < old(self).cells().len() && old(self).hdr().page_ty
                != PageKind::Leaf ==> {
                &&& final(self).wf()
                &&& final(self).hdr() == old(self).hdr()
                &&& final(self).cells() == old(self).cells().update(
                    idx as int,
                    Cell { key: old(self).cells()[idx as int].key, c_ptr: Some(new_ptr) },
                )
            },
    {
        let ghost s1 = self.data@;
        proof {
            if page_wf(s1) && idx < cells_of(s1).len() && parse_header(s1)->0.page_ty
                != PageKind::Leaf {
                assert(slot_pos(idx as int) + SLOT_SIZE <= parse_header(s1)->0.free_start);
                assert(idx as u16 as int == idx);
                assert(slot_off(s1, idx as int) + 12 <= PAGE_SIZE);
            }
        }
        let slot = self.slot(idx as u16);
        let start = slot.cell_offset as usize;
        let b = u32_to_le_bytes(new_ptr);
        write_slice(&mut self.data, start + 8, b.as_slice());
        proof {
            if page_wf(s1) && idx < cells_of(s1).len() && parse_header(s1)->0.page_ty
                != PageKind::Leaf {
                lemma_cell_write(s1, idx as int, 8, b@);
                let s2 = self.data@;
                vstd::bytes::lemma_auto_spec_u32_to_from_le_bytes();
                assert(s2.subrange(start + 8, start + 12) == b@);
                let o = start as int;
                assert(s2.subrange(o, o + 8) =~= s1.subrange(o, o + 8));
                assert(cells_of(s2) =~= cells_of(s1).update(
                    idx as int,
                    Cell { key: cells_of(s1)[idx as int].key, c_ptr: Some(new_ptr) },
                ));
            }
        }
        Ok(())
    }

    /// Overwrites the key of cell `idx` in place.
    pub(crate) fn set_key_at(&mut self, idx: u16, key: i64)
        requires
            old(self).wf(),
            idx < old(self).cells().len(),
        ensures
            final(self).wf(),
            final(self).hdr() == old(self).hdr(),
            final(self).cells() == old(self).cells().update(
                idx as int,
                Cell { key, c_ptr: old(self).cells()[idx as int].c_ptr },
            ),
    {
        let ghost s1 = self.data@;
        proof {
            assert(slot_pos(idx as int) + SLOT_SIZE <= parse_header(s1)->0.free_start);
        }
        let slot = self.slot(idx);
        let start = slot.cell_offset as usize;
        let b = u64_to_le_bytes(key as u64);
        write_slice(&mut self.data, start, b.as_slice());
        proof {
            lemma_cell_write(s1, idx as int, 0, b@);
            let s2 = self.data@;
            vstd::bytes::lemma_auto_spec_u64_to_from_le_bytes();
            assert(s2.subrange(start as int, start + 8) == b@);
            lemma_i64_u64_roundtrip(key);
            let o = start as int;
            if parse_header(s1)->0.page_ty != PageKind::Leaf {
                assert(s2.subrange(o + 8, o + 12) =~= s1.subrange(o + 8, o + 12));
            }
            assert(cells_of(s2) =~= cells_of(s1).update(
                idx as int,
                Cell { key, c_ptr: cells_of(s1)[idx as int].c_ptr },
            ));
        }
    }

    /// Binary search over the first `n_slots` slots for where a cell with key
    /// `new_key` goes: the first slot whose key is not below it.
    fn search_slot(&self, new_key: i64, n_slots: u16, Ghost(cells): Ghost<Seq<Cell>>) -> (idx: u16)
        requires
            n_slots == cells.len(),
            slot_pos(n_slots as int) <= PAGE_SIZE,
            forall|i: int|
                0 <= i < n_slots ==> #[trigger] slot_off(self.bytes(), i) + 8 <= PAGE_SIZE && i64_at(
                    self.bytes(),
                    slot_off(self.bytes(), i),
                ) == cells[i].key,
        ensures
            idx == insert_pos(cells, new_key),
    {
        let ghost s = self.data@;
        let mut lo: u16 = 0;
        let mut hi: u16 = n_slots;
        while lo < hi
            invariant
                lo <= hi <= n_slots,
                n_slots == cells.len(),
                slot_pos(n_slots as int) <= PAGE_SIZE,
                s == self.data@,
                lower_bound(cells, new_key, lo as int, hi as int) == insert_pos(cells, new_key),
                forall|i: int|
                    0 <= i < n_slots ==> #[trigger] slot_off(self.bytes(), i) + 8 <= PAGE_SIZE
                        && i64_at(self.bytes(), slot_off(self.bytes(), i)) == cells[i].key,
            decreases hi - lo,
        {
            let mid = lo + (hi - lo) / 2;
            let mid_slot = self.slot(mid);
            assert(slot_off(s, mid as int) == mid_slot.cell_offset);
            let mid_key = read_i64(&self.data, mid_slot.cell_offset as usize);
            if mid_key < new_key {
                lo = mid + 1;
            } else {
                hi = mid;
            }
        }
        lo
    }

    /// Moves the bytes `a..b` up by one slot (to `a + 4..b + 4`).
    fn shift_slots_up(&mut self, a: usize, b: usize)
        requires
            a <= b,
            b + SLOT_SIZE <= PAGE_SIZE,
        ensures
            forall|j: int| 0 <= j < a + SLOT_SIZE ==> final(self).data@[j] == old(self).data@[j],
            forall|j: int|
                a + SLOT_SIZE <= j < b + SLOT_SIZE ==> final(self).data@[j] == old(self).data@[j - SLOT_SIZE],
            forall|j: int|
                b + SLOT_SIZE <= j < PAGE_SIZE ==> final(self).data@[j] == old(self).data@[j],
    {
        let ghost s0 = self.data@;
        let mut j = b;
        while j > a
            invariant
                a <= j <= b,
                b + SLOT_SIZE <= PAGE_SIZE,
                forall|x: int| 0 <= x < j + SLOT_SIZE ==> self.data@[x] == s0[x],
                forall|x: int| j + SLOT_SIZE <= x < b + SLOT_SIZE ==> self.data@[x] == s0[x - 4],
                forall|x: int| b + SLOT_SIZE <= x < PAGE_SIZE ==> self.data@[x] == s0[x],
            decreases j,
        {
            j = j - 1;
            let v = self.data[j];
            self.data[j + 4] = v;
        }
    }

    /// Stores `c_data` as a new cell at the end of the free space and inserts
    /// its slot where its key belongs among the slots (binary search on the
    /// keys); returns the number of slots afterwards. Fails, leaving the page
    /// unchanged, when the cell and its slot do not fit.
    #[verifier::rlimit(80)]
    #[verifier::spinoff_prover]
    pub fn add_cell(&mut self, c_data: &[u8]) -> (r: Result<usize, BtreeError>)
        requires
            parse_header(old(self).bytes()) is None || !room_for(old(self).hdr(), c_data@.len() as int)
                || (old(self).wf() && c_data@.len() >= 8),
        ensures
            parse_header(old(self).bytes()) is None ==> r == Err::<usize, BtreeError>(
                BtreeError::BadHeader,
            ) && *final(self) == *old(self),
            parse_header(old(self).bytes()) is Some && !room_for(old(self).hdr(), c_data@.len() as int)
                ==> r == Err::<usize, BtreeError>(BtreeError::PageOverflow) && *final(self) == *old(
                self,
            ),
            parse_header(old(self).bytes()) is Some && room_for(old(self).hdr(), c_data@.len() as int)
                ==> {
                let k = old(self).hdr().page_ty;
                let c = cell_from_bytes(c_data@, k);
                let idx = insert_pos(old(self).cells(), c.key);
                let n = old(self).cells().len();
                &&& r == Ok::<usize, BtreeError>((n + 1) as usize)
                &&& final(self).hdr() == PageHeader {
                    free_start: (old(self).hdr().free_start + SLOT_SIZE) as u16,
                    free_end: (old(self).hdr().free_end - c_data@.len()) as u16,
                    ..old(self).hdr()
                }
                &&& final(self).cells().len() == n + 1
                &&& forall|i: int|
                    0 <= i < idx ==> #[trigger] final(self).cells()[i] == old(self).cells()[i]
                &&& forall|i: int|
                    idx < i <= n ==> #[trigger] final(self).cells()[i] == old(self).cells()[i - 1]
                &&& final(self).cells()[idx].key == c.key
                &&& c_data@.len() >= cell_width(k) ==> final(self).wf() && final(self).cells()
                    == old(self).cells().insert(idx, c)
            },
    {
        let cell_size = c_data.len();
        let mut hdr = match self.header() {
            Ok(h) => h,
            Err(e) => {
                return Err(e);
            },
        };
        let ghost s0 = self.data@;
        let ghost h0 = hdr;
        let ghost cells0 = cells_of(s0);
        let p_offset = hdr.free_start;
        let c_offset = hdr.free_end;
        let end = c_offset as usize;
        if cell_size > end || end - cell_size < p_offset as usize + SLOT_SIZE {
            return Err(BtreeError::PageOverflow);
        }
        let start = end - cell_size;
        write_slice(&mut self.data, start, c_data);
        let ghost s1 = self.data@;
        let new_key = u64_from_le_bytes(slice_subrange(c_data, 0, 8)) as i64;
        assert(new_key == cell_from_bytes(c_data@, h0.page_ty).key);
        let n_slots = ((p_offset as usize - HEADER_SIZE) / SLOT_SIZE) as u16;
        proof {
            assert forall|i: int| 0 <= i < n_slots implies #[trigger] slot_off(s1, i) == slot_off(s0, i)
                && i64_at(s1, slot_off(s1, i)) == cells0[i].key && slot_off(s1, i) + 8 <= PAGE_SIZE by {
                let p = slot_pos(i);
                assert(p + SLOT_SIZE <= h0.free_start);
                assert(s1.subrange(p, p + 2) =~= s0.subrange(p, p + 2));
                let o = slot_off(s0, i);
                assert(h0.free_end <= o);
                assert(s1.subrange(o, o + 8) =~= s0.subrange(o, o + 8));
            }
        }
        let lo = self.search_slot(new_key, n_slots, Ghost(cells0));
        let insert_idx = lo as usize;
        proof {
            lemma_lower_bound_range(cells0, new_key, 0, cells0.len() as int);
        }
        let slot_area_start = HEADER_SIZE + insert_idx * SLOT_SIZE;
        let slot_area_end = HEADER_SIZE + n_slots as usize * SLOT_SIZE;
        self.shift_slots_up(slot_area_start, slot_area_end);
        let ghost s2 = self.data@;
        let off_bytes = u16_to_le_bytes(start as u16);
        write_slice(&mut self.data, slot_area_start, off_bytes.as_slice());
        let size_bytes = u16_to_le_bytes(cell_size as u16);
        write_slice(&mut self.data, slot_area_start + 2, size_bytes.as_slice());
        let ghost s3 = self.data@;
        hdr.free_start = hdr.free_start + SLOT_SIZE as u16;
        hdr.free_end = start as u16;
        self.write_header(&hdr);
        proof {
            let s4 = self.data@;
            lemma_header_rewrite(s3, hdr);
            vstd::bytes::lemma_auto_spec_u16_to_from_le_bytes();
            let a = slot_area_start as int;
            assert(s4.subrange(a, a + 2) =~= s3.subrange(a, a + 2));
            assert(s3.subrange(a, a + 2) =~= off_bytes@);
            let b = slot_area_end as int;
            assert forall|j: int| end <= j < PAGE_SIZE implies s1[j] == s0[j] by {}
            assert forall|j: int| start <= j < end implies s1[j] == c_data@[j - start] by {}
            assert forall|j: int| b + SLOT_SIZE <= j < PAGE_SIZE implies s3[j] == s2[j] by {}
            assert forall|j: int| HEADER_SIZE <= j < a implies s3[j] == s2[j] by {}
            assert forall|j: int| a + SLOT_SIZE <= j < b + SLOT_SIZE implies s3[j] == s2[j] by {}
            assert(b + SLOT_SIZE <= start);
            assert forall|j: int| end <= j < PAGE_SIZE implies s4[j] == s0[j] by {
                assert(s4[j] == s3[j]);
                assert(s3[j] == s2[j]);
                assert(s2[j] == s1[j]);
            }
            assert forall|j: int| HEADER_SIZE <= j < a implies s4[j] == s0[j] by {
                assert(s4[j] == s3[j]);
                assert(s2[j] == s1[j]);
            }
            assert forall|j: int| a + SLOT_SIZE <= j < b + SLOT_SIZE implies s4[j] == s0[j
                - SLOT_SIZE] by {
                assert(s4[j] == s3[j]);
                assert(s2[j] == s1[j - SLOT_SIZE]);
            }
            assert(s4.subrange(start as int, end as int) =~= c_data@) by {
                assert forall|x: int| 0 <= x < cell_size implies s4.subrange(
                    start as int,
                    end as int,
                )[x] == c_data@[x] by {
                    let j = start + x;
                    assert(s4[j] == s3[j]);
                    assert(s3[j] == s2[j]);
                    assert(s2[j] == s1[j]);
                }
            }
            lemma_add_cell_bytes(s0, s4, c_data@, insert_idx as int);
        }
        Ok(n_slots as usize + 1)
    }

    /// Clears the page and writes a fresh header, then adds `cells` one by one
    /// (each to its key's place). Fails when the cells and their slots do not
    /// all fit; the page then holds the longest prefix of `cells` that does.
    #[verifier::spinoff_prover]
    pub fn reset_and_fill(
        &mut self,
        id: u32,
        page_ty: PageKind,
        rightmost_ptr: u32,
        cells: &[Cell],
    ) -> (r: Result<(), BtreeError>)
        requires
            page_ty != PageKind::Leaf ==> forall|i: int|
                0 <= i < cells@.len() ==> (#[trigger] cells@[i]).c_ptr is Some,
        ensures
            (r is Ok) == (fill_size(cells@) <= PAGE_SIZE - HEADER_SIZE),
            r is Err ==> r == Err::<(), BtreeError>(BtreeError::PageOverflow),
            final(self).wf(),
            kind_consistent(cells@, page_ty) && cells@.len() <= 100 ==> {
                &&& r is Ok
                &&& final(self).cells() == filled(cells@, page_ty)
                &&& final(self).hdr().free_end == PAGE_SIZE - cell_width(page_ty) * cells@.len()
            },
            ({
                let k = fit_len(cells@) as int;
                &&& final(self).hdr() == PageHeader {
                    id,
                    page_ty,
                    free_start: (HEADER_SIZE + 4 * k) as u16,
                    free_end: (PAGE_SIZE - (fill_size(cells@.take(k)) - 4 * k)) as u16,
                    total_size: PAGE_SIZE as u16,
                    flags: 0,
                    rightmost_ptr,
                }
                &&& final(self).cells() == filled(cells@.take(k), page_ty)
            }),
    {
        proof {
            if kind_consistent(cells@, page_ty) && cells@.len() <= 100 {
                let w = cell_width(page_ty);
                assert forall|j: int| 0 <= j < cells@.len() implies #[trigger] cell_bytes(
                    cells@[j],
                ).len() == w by {
                    lemma_cell_bytes_roundtrip(cells@[j], page_ty);
                }
                lemma_fill_size_uniform(cells@, w);
                assert(cells@.len() * (w + SLOT_SIZE) <= 100 * 16) by (nonlinear_arith)
                    requires
                        cells@.len() <= 100,
                        w <= 12,
                ;
            }
        }
        let hdr = PageHeader {
            id,
            total_size: PAGE_SIZE as u16,
            free_start: HEADER_SIZE as u16,
            free_end: PAGE_SIZE as u16,
            rightmost_ptr,
            page_ty,
            flags: 0,
        };
        proof {
            lemma_fresh_header(self.data@, hdr);
        }
        self.write_header(&hdr);
        proof {
            assert(cells@.take(0) =~= Seq::<Cell>::empty());
            assert(fill_size(cells@.take(0)) == 0);
        }
        let n = cells.len();
        let mut i: usize = 0;
        while i < n
            invariant
                i <= n,
                n == cells@.len(),
                page_ty != PageKind::Leaf ==> forall|j: int|
                    0 <= j < cells@.len() ==> (#[trigger] cells@[j]).c_ptr is Some,
                page_wf(self.data@),
                kind_consistent(cells@, page_ty) && cells@.len() <= 100 ==> fill_size(cells@) <= 100
                    * 16,
                fill_size(cells@.take(i as int)) <= PAGE_SIZE - HEADER_SIZE,
                fill_size(cells@.take(i as int)) >= 12 * i,
                parse_header(self.data@) == Some(
                    PageHeader {
                        id,
                        page_ty,
                        free_start: (HEADER_SIZE + 4 * i) as u16,
                        free_end: (PAGE_SIZE - (fill_size(cells@.take(i as int)) - SLOT_SIZE
                            * i)) as u16,
                        total_size: PAGE_SIZE as u16,
                        flags: 0,
                        rightmost_ptr,
                    },
                ),
                cells_of(self.data@) == filled(cells@.take(i as int), page_ty),
            decreases n - i,
        {
            let cell = cells[i];
            let buf = cell_encoding(&cell);
            let ghost prev = cells@.take(i as int);
            let ghost next = cells@.take(i + 1);
            proof {
                lemma_cell_bytes_roundtrip(cell, page_ty);
                assert(next.drop_last() =~= prev);
                assert(next.last() == cell);
                assert(fill_size(next) == fill_size(prev) + buf@.len() + SLOT_SIZE);
                lemma_lower_bound_range(filled(prev, page_ty), cell.key, 0, filled(prev, page_ty).len() as int);
                assert(filled(next, page_ty) == filled(prev, page_ty).insert(
                    insert_pos(filled(prev, page_ty), cell.key),
                    cell_as(cell, page_ty),
                ));
            }
            let ghost hb = parse_header(self.data@)->0;
            match self.add_cell(buf.as_slice()) {
                Ok(_) => {
                    assert(room_for(hb, buf@.len() as int));
                },
                Err(e) => {
                    proof {
                        lemma_fit_len(cells@, i as int);
                        lemma_fill_size_monotone(cells@, i + 1, n as int);
                        assert(cells@.take(n as int) =~= cells@);
                    }
                    return Err(e);
                },
            }
            i = i + 1;
        }
        proof {
            assert(cells@.take(n as int) =~= cells@);
            lemma_fit_len(cells@, n as int);
            if kind_consistent(cells@, page_ty) {
                let w = cell_width(page_ty);
                assert forall|j: int| 0 <= j < cells@.len() implies #[trigger] cell_bytes(
                    cells@[j],
                ).len() == w by {
                    lemma_cell_bytes_roundtrip(cells@[j], page_ty);
                }
                lemma_fill_size_uniform(cells@, w);
                assert(n * (w + SLOT_SIZE) - 4 * n == w * n) by (nonlinear_arith);
            }
        }
        Ok(())
    }

    /// Removes cell `idx` by rebuilding the page from its other cells;
    /// returns a copy of the rebuilt page.
    #[verifier::rlimit(60)]
    pub fn remove_cell(&mut self, idx: usize) -> (r: Result<Page, BtreeError>)
        requires
            old(self).wf(),
        ensures
            idx >= old(self).cells().len() ==> r == Err::<Page, BtreeError>(
                BtreeError::IndexOutOfBounds,
            ) && *final(self) == *old(self),
            idx < old(self).cells().len() ==> {
                let n = old(self).cells().len() - 1;
                let w = cell_width(old(self).hdr().page_ty);
                &&& r == Ok::<Page, BtreeError>(*final(self))
                &&& final(self).wf()
                &&& final(self).hdr() == PageHeader {
                    free_start: (HEADER_SIZE + 4 * n) as u16,
                    free_end: (PAGE_SIZE - w * n) as u16,
                    total_size: PAGE_SIZE as u16,
                    flags: 0,
                    ..old(self).hdr()
                }
                &&& final(self).cells() == filled(
                    old(self).cells().remove(idx as int),
                    old(self).hdr().page_ty,
                )
            },
    {
        let hdr = match self.header() {
            Ok(h) => h,
            Err(e) => {
                return Err(e);
            },
        };
        let mut cells = match self.get_cells() {
            Ok(c) => c,
            Err(e) => {
                return Err(e);
            },
        };
        if idx >= cells.len() {
            return Err(BtreeError::IndexOutOfBounds);
        }
        let ghost old_cells = cells@;
        cells.remove(idx);
        proof {
            let k = hdr.page_ty;
            let w = cell_width(k);
            let h = hdr;
            assert(cells@ =~= old_cells.remove(idx as int));
            assert forall|i: int| 0 <= i < cells@.len() implies #[trigger] cell_bytes(cells@[i]).len()
                == w by {
                let c = cells@[i];
                lemma_cell_bytes_roundtrip(c, k);
                if k == PageKind::Leaf {
                    assert(c.c_ptr is None);
                } else {
                    assert(c.c_ptr is Some);
                }
            }
            lemma_fill_size_uniform(cells@, w);
            let n = cells@.len();
            assert(slot_count(h) == n + 1);
            assert(PAGE_SIZE - h.free_end >= w * (n + 1));
            assert(n * (w + SLOT_SIZE) <= PAGE_SIZE - HEADER_SIZE) by (nonlinear_arith)
                requires
                    PAGE_SIZE - h.free_end >= w * (n + 1),
                    h.free_start <= h.free_end,
                    h.free_start == HEADER_SIZE + SLOT_SIZE * (n + 1),
                    0 <= w,
            ;
            assert(cells@.take(n as int) =~= cells@);
            assert(n * (w + SLOT_SIZE) - SLOT_SIZE * n == w * n) by (nonlinear_arith);
        }
        match self.reset_and_fill(hdr.id, hdr.page_ty, hdr.rightmost_ptr, cells.as_slice()) {
            Ok(()) => {},
            Err(e) => {
                return Err(e);
            },
        }
        Ok(Page { data: self.data })
    }
}

} // verus!
