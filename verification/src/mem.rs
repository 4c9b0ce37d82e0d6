//! User-memory access bridge: a model address space as a set of mapped pages,
//! and the checked, all-or-nothing byte transfers through which kernel code
//! touches user memory.  A transfer fails as a whole the moment any page of
//! the requested range is unmapped or lacks a required permission bit.

use vstd::prelude::*;
use vstd::arithmetic::div_mod::lemma_div_is_ordered;
use crate::flags::{PTE_V, PTE_R, PTE_W, PTE_X, PTE_U};

verus! {

/// Bytes per page.
pub const PAGE_SIZE: usize = 4096;

/// One mapped page: its virtual page number, its permission bits, and its
/// current contents.
pub struct Page {
    /// Virtual page number.
    pub vpn: usize,
    /// Permission bits of the mapping, a combination of the `PTE_*` bits.
    pub flags: u8,
    /// Contents of the page, always `PAGE_SIZE` bytes.
    pub data: Vec<u8>,
}

/// A process's virtual-memory mapping context: the pages it has mapped.
pub struct MemorySet {
    /// The mapped pages; virtual page numbers are unique.
    pub pages: Vec<Page>,
}

/// Well-formedness of an address space: pages are full-sized, page numbers
/// are in range and pairwise distinct.
pub open spec fn ms_wf(ms: MemorySet) -> bool {
    &&& forall|i: int| 0 <= i < ms.pages@.len() ==> (#[trigger] ms.pages@[i]).data@.len() == PAGE_SIZE
    &&& forall|i: int, j: int|
        #![trigger ms.pages@[i].vpn, ms.pages@[j].vpn]
        0 <= i < j < ms.pages@.len() ==> ms.pages@[i].vpn != ms.pages@[j].vpn
}

/// Whether the page with the given virtual page number is mapped.
pub open spec fn is_mapped(ms: MemorySet, vpn: int) -> bool {
    exists|i: int| 0 <= i < ms.pages@.len() && (#[trigger] ms.pages@[i]).vpn == vpn
}

/// Index in `ms.pages` of the page with the given virtual page number.
pub open spec fn page_index(ms: MemorySet, vpn: int) -> int {
    choose|i: int| 0 <= i < ms.pages@.len() && (#[trigger] ms.pages@[i]).vpn == vpn
}

/// Permission bits of the mapping for the given virtual page number.
pub open spec fn page_flags(ms: MemorySet, vpn: int) -> u8 {
    ms.pages@[page_index(ms, vpn)].flags
}

/// The page is mapped and its permission bits include every bit of `req`.
pub open spec fn vpn_ok(ms: MemorySet, vpn: int, req: u8) -> bool {
    is_mapped(ms, vpn) && page_flags(ms, vpn) & req == req
}

/// The byte stored at virtual address `va`.
pub open spec fn byte_at(ms: MemorySet, va: int) -> u8 {
    ms.pages@[page_index(ms, va / (PAGE_SIZE as int))].data@[va % (PAGE_SIZE as int)]
}

/// The sequence of bytes stored at `[ptr, ptr + len)`.
pub open spec fn user_bytes(ms: MemorySet, ptr: int, len: int) -> Seq<u8> {
    Seq::new(len as nat, |i: int| byte_at(ms, ptr + i))
}

/// Every page covering `[ptr, ptr + len)` is mapped with the bits of `req`.
pub open spec fn range_ok(ms: MemorySet, ptr: int, len: int, req: u8) -> bool {
    len <= 0 || forall|vpn: int|
        ptr / (PAGE_SIZE as int) <= vpn <= (ptr + len - 1) / (PAGE_SIZE as int)
            ==> #[trigger] vpn_ok(ms, vpn, req)
}

/// A whole transfer request is valid: its end address fits in `usize` and
/// every page it touches is mapped with the required bits.
pub open spec fn transfer_ok(ms: MemorySet, ptr: int, len: int, req: u8) -> bool {
    ptr + len <= usize::MAX && range_ok(ms, ptr, len, req)
}

/// Pages keep their numbers and permission bits, and every byte outside
/// `[ptr, ptr + len)` keeps its value; only the addressed range may differ.
pub open spec fn mem_unchanged_outside(pre: MemorySet, post: MemorySet, ptr: int, len: int) -> bool {
    &&& post.pages@.len() == pre.pages@.len()
    &&& forall|i: int| 0 <= i < pre.pages@.len() ==> {
        &&& (#[trigger] post.pages@[i]).vpn == pre.pages@[i].vpn
        &&& post.pages@[i].flags == pre.pages@[i].flags
        &&& post.pages@[i].data@.len() == pre.pages@[i].data@.len()
        &&& forall|o: int|
            0 <= o < pre.pages@[i].data@.len()
                && !(ptr <= pre.pages@[i].vpn * PAGE_SIZE + o < ptr + len)
                ==> (#[trigger] post.pages@[i].data@[o]) == pre.pages@[i].data@[o]
    }
}

/// The same mapping structure and the same contents everywhere.
pub open spec fn ms_eq(a: MemorySet, b: MemorySet) -> bool {
    mem_unchanged_outside(a, b, 0, 0)
}

/// A valid transfer stays valid on any prefix of its length.
pub proof fn lemma_transfer_prefix(ms: MemorySet, ptr: int, len: int, n: int, req: u8)
    requires
        transfer_ok(ms, ptr, len, req),
        0 <= n <= len,
        ptr >= 0,
    ensures
        transfer_ok(ms, ptr, n, req),
{
    if n > 0 {
        assert forall|vpn: int|
            ptr / (PAGE_SIZE as int) <= vpn <= (ptr + n - 1) / (PAGE_SIZE as int)
            implies #[trigger] vpn_ok(ms, vpn, req) by {
            lemma_div_is_ordered(ptr + n - 1, ptr + len - 1, PAGE_SIZE as int);
        }
    }
}

/// Looks a virtual page number up in the page set.
///
/// Returns the index of the page mapping `vpn`, or `None` when `vpn` is
/// unmapped.
pub fn find_page(ms: &MemorySet, vpn: usize) -> (r: Option<usize>)
    requires
        ms_wf(*ms),
    ensures
        match r {
            Some(i) => i < ms.pages@.len() && ms.pages@[i as int].vpn == vpn
                && i == page_index(*ms, vpn as int) && is_mapped(*ms, vpn as int),
            None => !is_mapped(*ms, vpn as int),
        },
{
    let n = ms.pages.len();
    let mut i: usize = 0;
    while i < n
        invariant
            ms_wf(*ms),
            n == ms.pages@.len(),
            i <= n,
            forall|j: int| 0 <= j < i ==> (#[trigger] ms.pages@[j]).vpn != vpn,
        decreases n - i,
    {
        if ms.pages[i].vpn == vpn {
            proof {
                let c = page_index(*ms, vpn as int);
                assert(0 <= c < ms.pages@.len() && ms.pages@[c].vpn == vpn);
                assert(c == i);
            }
            return Some(i);
        }
        i += 1;
    }
    None
}

/// Checks a transfer request without performing it: true exactly when the
/// whole range `[ptr, ptr + len)` is addressable and every page of it is
/// mapped with the bits of `req`.
pub fn check_range(ms: &MemorySet, ptr: usize, len: usize, req: u8) -> (r: bool)
    requires
        ms_wf(*ms),
    ensures
        r <==> transfer_ok(*ms, ptr as int, len as int, req),
{
    if len == 0 {
        return true;
    }
    if len > usize::MAX - ptr {
        return false;
    }
    let last: usize = ptr + len - 1;
    let first_vpn: usize = ptr / PAGE_SIZE;
    let last_vpn: usize = last / PAGE_SIZE;
    let mut vpn: usize = first_vpn;
    while vpn <= last_vpn
        invariant
            ms_wf(*ms),
            len > 0,
            ptr + len <= usize::MAX,
            last == ptr + len - 1,
            first_vpn == ptr as int / (PAGE_SIZE as int),
            last_vpn == last as int / (PAGE_SIZE as int),
            first_vpn <= vpn <= last_vpn + 1,
            forall|v: int| first_vpn <= v < vpn ==> #[trigger] vpn_ok(*ms, v, req),
        decreases last_vpn + 1 - vpn,
    {
        match find_page(ms, vpn) {
            Some(i) => {
                if ms.pages[i].flags & req != req {
                    assert(!vpn_ok(*ms, vpn as int, req));
                    return false;
                }
                assert(vpn_ok(*ms, vpn as int, req));
            },
            None => {
                assert(!vpn_ok(*ms, vpn as int, req));
                return false;
            },
        }
        vpn += 1;
    }
    true
}

/// Reads `len` bytes starting at user address `ptr`, requiring the bits of
/// `req` on every page touched.  All-or-nothing: on any translation failure
/// nothing is read and `None` is returned.
pub fn read_user_bytes(ms: &MemorySet, ptr: usize, len: usize, req: u8) -> (r: Option<Vec<u8>>)
    requires
        ms_wf(*ms),
    ensures
        r is Some <==> transfer_ok(*ms, ptr as int, len as int, req),
        r matches Some(v) ==> v@ == user_bytes(*ms, ptr as int, len as int),
{
    if !check_range(ms, ptr, len, req) {
        return None;
    }
    let mut out: Vec<u8> = Vec::new();
    let mut i: usize = 0;
    while i < len
        invariant
            ms_wf(*ms),
            transfer_ok(*ms, ptr as int, len as int, req),
            i <= len,
            out@.len() == i,
            forall|j: int| 0 <= j < i ==> #[trigger] out@[j] == byte_at(*ms, ptr + j),
        decreases len - i,
    {
        let va: usize = ptr + i;
        let vpn: usize = va / PAGE_SIZE;
        proof {
            lemma_div_is_ordered(ptr as int, va as int, PAGE_SIZE as int);
            lemma_div_is_ordered(va as int, ptr + len - 1, PAGE_SIZE as int);
            assert(vpn_ok(*ms, vpn as int, req));
        }
        let idx = match find_page(ms, vpn) {
            Some(x) => x,
            None => { proof { assert(false); } 0 },
        };
        let off: usize = va % PAGE_SIZE;
        let b = ms.pages[idx].data[off];
        out.push(b);
        i += 1;
    }
    proof {
        assert(out@ =~= user_bytes(*ms, ptr as int, len as int));
    }
    Some(out)
}

/// Two page sets with the same numbers, permission bits and page sizes map
/// the same page numbers at the same indexes.
pub proof fn lemma_same_structure(a: MemorySet, b: MemorySet)
    requires
        ms_wf(a),
        b.pages@.len() == a.pages@.len(),
        forall|i: int| 0 <= i < a.pages@.len() ==> (#[trigger] b.pages@[i]).vpn == a.pages@[i].vpn
            && b.pages@[i].flags == a.pages@[i].flags
            && b.pages@[i].data@.len() == a.pages@[i].data@.len(),
    ensures
        ms_wf(b),
        forall|v: int| #[trigger] is_mapped(b, v) == is_mapped(a, v),
        forall|v: int| is_mapped(a, v) ==> #[trigger] page_index(b, v) == page_index(a, v),
        forall|v: int| is_mapped(a, v) ==> #[trigger] page_flags(b, v) == page_flags(a, v),
{
    assert forall|v: int| #[trigger] is_mapped(b, v) == is_mapped(a, v) by {
        if is_mapped(a, v) {
            let i = page_index(a, v);
            assert(0 <= i < a.pages@.len() && a.pages@[i].vpn == v);
            assert(b.pages@[i].vpn == v);
            assert(is_mapped(b, v));
        }
        if is_mapped(b, v) {
            let i = page_index(b, v);
            assert(0 <= i < b.pages@.len() && b.pages@[i].vpn == v);
            assert(a.pages@[i].vpn == v);
            assert(is_mapped(a, v));
        }
    }
    assert forall|v: int| is_mapped(a, v) implies #[trigger] page_index(b, v) == page_index(a, v) by {
        let ia = page_index(a, v);
        assert(0 <= ia < a.pages@.len() && a.pages@[ia].vpn == v);
        assert(is_mapped(b, v));
        let ib = page_index(b, v);
        assert(0 <= ib < b.pages@.len() && b.pages@[ib].vpn == v);
        assert(a.pages@[ib].vpn == v);
        if ia < ib {
            assert(a.pages@[ia].vpn != a.pages@[ib].vpn);
        }
        if ib < ia {
            assert(a.pages@[ib].vpn != a.pages@[ia].vpn);
        }
    }
}

/// Writes `data` at user address `ptr`, requiring the bits of `req` on every
/// page touched.  All-or-nothing: on any translation failure the address
/// space is left untouched and `false` is returned.
pub fn write_user_bytes(ms: &mut MemorySet, ptr: usize, data: &Vec<u8>, req: u8) -> (r: bool)
    requires
        ms_wf(*old(ms)),
    ensures
        r <==> transfer_ok(*old(ms), ptr as int, data@.len() as int, req),
        !r ==> *final(ms) == *old(ms),
        ms_wf(*final(ms)),
        mem_unchanged_outside(*old(ms), *final(ms), ptr as int, data@.len() as int),
        r ==> forall|k: int| 0 <= k < data@.len() ==> #[trigger] byte_at(*final(ms), ptr + k) == data@[k],
{
    let len = data.len();
    if !check_range(ms, ptr, len, req) {
        return false;
    }
    let mut i: usize = 0;
    while i < len
        invariant
            len == data@.len(),
            ms_wf(*old(ms)),
            transfer_ok(*old(ms), ptr as int, len as int, req),
            i <= len,
            ms_wf(*ms),
            mem_unchanged_outside(*old(ms), *ms, ptr as int, len as int),
            forall|v: int| #[trigger] is_mapped(*ms, v) == is_mapped(*old(ms), v),
            forall|v: int| is_mapped(*old(ms), v) ==> #[trigger] page_index(*ms, v) == page_index(*old(ms), v),
            forall|k: int| 0 <= k < i ==> #[trigger] byte_at(*ms, ptr + k) == data@[k],
            forall|k: int| i <= k < len ==> #[trigger] byte_at(*ms, ptr + k) == byte_at(*old(ms), ptr + k),
        decreases len - i,
    {
        let va: usize = ptr + i;
        let vpn: usize = va / PAGE_SIZE;
        proof {
            lemma_div_is_ordered(ptr as int, va as int, PAGE_SIZE as int);
            lemma_div_is_ordered(va as int, ptr + len - 1, PAGE_SIZE as int);
            assert(vpn_ok(*old(ms), vpn as int, req));
            assert(is_mapped(*ms, vpn as int));
        }
        let idx = match find_page(ms, vpn) {
            Some(x) => x,
            None => { proof { assert(false); } 0 },
        };
        let off: usize = va % PAGE_SIZE;
        let ghost pre = *ms;
        let b = data[i];
        ms.pages[idx].data[off] = b;
        proof {
            let ghost cur = *ms;
            assert(cur.pages@.len() == pre.pages@.len());
            assert(forall|ii: int| 0 <= ii < pre.pages@.len() && ii != idx
                ==> cur.pages@[ii] == pre.pages@[ii]);
            assert(cur.pages@[idx as int].vpn == pre.pages@[idx as int].vpn);
            assert(cur.pages@[idx as int].flags == pre.pages@[idx as int].flags);
            assert(cur.pages@[idx as int].data@ == pre.pages@[idx as int].data@.update(off as int, b));
            lemma_same_structure(pre, cur);
            assert(idx == page_index(pre, vpn as int));
            assert(idx == page_index(cur, vpn as int));
            assert(vpn * PAGE_SIZE + off == va) by (nonlinear_arith)
                requires
                    vpn == va as int / (PAGE_SIZE as int),
                    off == va as int % (PAGE_SIZE as int),
                    PAGE_SIZE == 4096,
                    va >= 0,
            ;
            // bytes outside the addressed range are untouched
            assert forall|ii: int, o: int|
                0 <= ii < pre.pages@.len() && 0 <= o < pre.pages@[ii].data@.len()
                    && !(ptr <= pre.pages@[ii].vpn * PAGE_SIZE + o < ptr + len)
                implies (#[trigger] cur.pages@[ii].data@[o]) == pre.pages@[ii].data@[o] by {
                if ii == idx && o == off {
                    assert(pre.pages@[ii].vpn == vpn);
                    assert(ptr <= vpn * PAGE_SIZE + off < ptr + len);
                }
            }
            // already-written bytes, and the byte just written
            assert forall|k: int| 0 <= k < i + 1 implies #[trigger] byte_at(cur, ptr + k) == data@[k] by {
                lemma_div_is_ordered(ptr as int, ptr + k, PAGE_SIZE as int);
                lemma_div_is_ordered(ptr + k, ptr + len - 1, PAGE_SIZE as int);
                let kvpn = (ptr + k) / (PAGE_SIZE as int);
                let koff = (ptr + k) % (PAGE_SIZE as int);
                assert(vpn_ok(*old(ms), kvpn, req));
                let pi = page_index(cur, kvpn);
                assert(pi == page_index(pre, kvpn));
                if k == i {
                    assert(kvpn == vpn && koff == off);
                    assert(byte_at(cur, ptr + k) == b);
                } else {
                    if pi == idx {
                        assert(pre.pages@[pi].vpn == kvpn && pre.pages@[idx as int].vpn == vpn);
                        assert(kvpn == vpn);
                        assert(kvpn * (PAGE_SIZE as int) + koff == ptr + k);
                        assert(koff != off);
                        assert(byte_at(cur, ptr + k) == byte_at(pre, ptr + k));
                    } else {
                        assert(byte_at(cur, ptr + k) == byte_at(pre, ptr + k));
                    }
                }
            }
            // bytes not yet written still hold their original values
            assert forall|k: int| i + 1 <= k < len implies #[trigger] byte_at(cur, ptr + k) == byte_at(*old(ms), ptr + k) by {
                lemma_div_is_ordered(ptr as int, ptr + k, PAGE_SIZE as int);
                lemma_div_is_ordered(ptr + k, ptr + len - 1, PAGE_SIZE as int);
                let kvpn = (ptr + k) / (PAGE_SIZE as int);
                let koff = (ptr + k) % (PAGE_SIZE as int);
                assert(vpn_ok(*old(ms), kvpn, req));
                let pi = page_index(cur, kvpn);
                assert(pi == page_index(pre, kvpn));
                if pi == idx {
                    assert(pre.pages@[pi].vpn == kvpn && pre.pages@[idx as int].vpn == vpn);
                    assert(kvpn == vpn);
                    assert(kvpn * (PAGE_SIZE as int) + koff == ptr + k);
                    assert(koff != off);
                    assert(byte_at(cur, ptr + k) == byte_at(pre, ptr + k));
                } else {
                    assert(byte_at(cur, ptr + k) == byte_at(pre, ptr + k));
                }
            }
        }
        i += 1;
    }
    true
}

/// Removing one page from a well-formed page set unmaps exactly its page
/// number and leaves every other mapping and its contents in place.
pub proof fn lemma_remove_page(a: MemorySet, b: MemorySet, i: int)
    requires
        ms_wf(a),
        0 <= i < a.pages@.len(),
        b.pages@ == a.pages@.remove(i),
    ensures
        ms_wf(b),
        !is_mapped(b, a.pages@[i].vpn as int),
        forall|w: int| w != a.pages@[i].vpn ==> #[trigger] is_mapped(b, w) == is_mapped(a, w),
        forall|w: int| w != a.pages@[i].vpn && is_mapped(a, w)
            ==> b.pages@[page_index(b, w)] == a.pages@[#[trigger] page_index(a, w)],
{
    let v = a.pages@[i].vpn as int;
    assert forall|j: int| 0 <= j < b.pages@.len() implies #[trigger] b.pages@[j] == a.pages@[if j < i { j } else { j + 1 }] by {}
    assert(!is_mapped(b, v)) by {
        if is_mapped(b, v) {
            let j = page_index(b, v);
            assert(0 <= j < b.pages@.len() && b.pages@[j].vpn == v);
            let ja = if j < i { j } else { j + 1 };
            assert(a.pages@[ja].vpn == v && a.pages@[i].vpn == v && ja != i);
            if ja < i {
                assert(a.pages@[ja].vpn != a.pages@[i].vpn);
            } else {
                assert(a.pages@[i].vpn != a.pages@[ja].vpn);
            }
        }
    }
    assert forall|w: int| w != v implies #[trigger] is_mapped(b, w) == is_mapped(a, w) by {
        if is_mapped(a, w) {
            let j = page_index(a, w);
            assert(0 <= j < a.pages@.len() && a.pages@[j].vpn == w);
            assert(j != i);
            let jb = if j < i { j } else { j - 1 };
            assert(b.pages@[jb].vpn == w);
            assert(is_mapped(b, w));
        }
        if is_mapped(b, w) {
            let j = page_index(b, w);
            assert(0 <= j < b.pages@.len() && b.pages@[j].vpn == w);
            let ja = if j < i { j } else { j + 1 };
            assert(a.pages@[ja].vpn == w);
            assert(is_mapped(a, w));
        }
    }
    assert forall|w: int| w != v && is_mapped(a, w)
        implies b.pages@[page_index(b, w)] == a.pages@[#[trigger] page_index(a, w)] by {
        let j = page_index(a, w);
        assert(0 <= j < a.pages@.len() && a.pages@[j].vpn == w);
        assert(j != i);
        let jb = if j < i { j } else { j - 1 };
        assert(b.pages@[jb].vpn == w);
        let pb = page_index(b, w);
        assert(0 <= pb < b.pages@.len() && b.pages@[pb].vpn == w);
        if pb < jb {
            assert(b.pages@[pb].vpn != b.pages@[jb].vpn);
        }
        if jb < pb {
            assert(b.pages@[jb].vpn != b.pages@[pb].vpn);
        }
        assert(pb == jb);
    }
}

/// A mapping request is acceptable: the start is page-aligned, the
/// protection bits are a nonempty subset of read/write/execute, the range
/// is addressable, and no page of it is already mapped.
pub open spec fn mmap_ok(ms: MemorySet, start: int, len: int, prot: usize) -> bool {
    &&& start % (PAGE_SIZE as int) == 0
    &&& prot & 0x7 != 0
    &&& prot & (!0x7usize) == 0
    &&& start + len <= usize::MAX
    &&& len > 0 ==> forall|vpn: int|
        start as int / (PAGE_SIZE as int) <= vpn <= (start + len - 1) / (PAGE_SIZE as int)
            ==> !(#[trigger] is_mapped(ms, vpn))
}

/// An unmapping request is acceptable: the start is page-aligned, the range
/// is addressable, and every page of it is currently mapped.
pub open spec fn munmap_ok(ms: MemorySet, start: int, len: int) -> bool {
    &&& start % (PAGE_SIZE as int) == 0
    &&& start + len <= usize::MAX
    &&& len > 0 ==> forall|vpn: int|
        start as int / (PAGE_SIZE as int) <= vpn <= (start + len - 1) / (PAGE_SIZE as int)
            ==> #[trigger] is_mapped(ms, vpn)
}

/// Every page number outside `[lo, hi)` is mapped in `post` exactly as in
/// `pre`, with the same permission bits and the same contents.
pub open spec fn pages_preserved_except(pre: MemorySet, post: MemorySet, lo: int, hi: int) -> bool {
    forall|w: int| !(lo <= w < hi) ==> #[trigger] is_mapped(post, w) == is_mapped(pre, w)
        && (is_mapped(pre, w) ==> post.pages@[page_index(post, w)] == pre.pages@[page_index(pre, w)])
}

/// Page-table permission bits for a protection mask: valid and
/// user-accessible, plus read/write/execute as requested.
pub open spec fn prot_to_flags(prot: usize) -> u8 {
    (PTE_V | PTE_U
        | (if prot & 1 != 0 { PTE_R } else { 0 })
        | (if prot & 2 != 0 { PTE_W } else { 0 })
        | (if prot & 4 != 0 { PTE_X } else { 0 })) as u8
}

impl MemorySet {
    /// An address space with nothing mapped.
    pub fn new() -> (ms: MemorySet)
        ensures
            ms_wf(ms),
            ms.pages@.len() == 0,
    {
        MemorySet { pages: Vec::new() }
    }

    /// Maps the page-aligned range `[start, start + len)` with the given
    /// protection bits, all pages zero-filled.  Fails, leaving the address
    /// space untouched, when the request is misaligned, carries no or
    /// unknown protection bits, overflows the address width, or overlaps an
    /// existing mapping.
    #[verifier::rlimit(50)]
    pub fn mmap(&mut self, start: usize, len: usize, prot: usize) -> (r: i32)
        requires
            ms_wf(*old(self)),
        ensures
            r == 0 || r == -1,
            (r == 0) <==> mmap_ok(*old(self), start as int, len as int, prot),
            r == -1 ==> *final(self) == *old(self),
            ms_wf(*final(self)),
            r == 0 ==> forall|vpn: int| len > 0
                && start as int / (PAGE_SIZE as int) <= vpn <= (start + len - 1) / (PAGE_SIZE as int)
                ==> #[trigger] vpn_ok(*final(self), vpn, prot_to_flags(prot))
                    && page_flags(*final(self), vpn) == prot_to_flags(prot),
            r == 0 ==> forall|va: int| start <= va < start + len ==> #[trigger] byte_at(*final(self), va) == 0,
            r == 0 ==> pages_preserved_except(*old(self), *final(self),
                start as int / (PAGE_SIZE as int),
                if len == 0 { start as int / (PAGE_SIZE as int) } else { (start + len - 1) / (PAGE_SIZE as int) + 1 }),
    {
        if start % PAGE_SIZE != 0 || prot & 0x7 == 0 || prot & (!0x7usize) != 0 {
            return -1;
        }
        if len == 0 {
            return 0;
        }
        if len > usize::MAX - start {
            return -1;
        }
        if !check_unmapped(self, start, len) {
            return -1;
        }
        let first: usize = start / PAGE_SIZE;
        let last: usize = (start + len - 1) / PAGE_SIZE;
        let f: u8 = PTE_V | PTE_U
            | (if prot & 1 != 0 { PTE_R } else { 0 })
            | (if prot & 2 != 0 { PTE_W } else { 0 })
            | (if prot & 4 != 0 { PTE_X } else { 0 });
        proof {
            assert(f & f == f) by (bit_vector);
        }
        let ghost pre = *self;
        let mut vpn: usize = first;
        while vpn <= last
            invariant
                ms_wf(pre),
                mmap_ok(pre, start as int, len as int, prot),
                len > 0,
                start + len <= usize::MAX,
                first == start as int / (PAGE_SIZE as int),
                last == (start + len - 1) / (PAGE_SIZE as int),
                first <= vpn <= last + 1,
                f == prot_to_flags(prot),
                f & f == f,
                ms_wf(*self),
                forall|w: int| first <= w < vpn ==> #[trigger] is_mapped(*self, w)
                    && page_flags(*self, w) == f
                    && (forall|o: int| 0 <= o < PAGE_SIZE
                        ==> #[trigger] self.pages@[page_index(*self, w)].data@[o] == 0),
                pages_preserved_except(pre, *self, first as int, vpn as int),
            decreases last + 1 - vpn,
        {
            let mut d: Vec<u8> = Vec::new();
            let mut o: usize = 0;
            while o < PAGE_SIZE
                invariant
                    o <= PAGE_SIZE,
                    d@.len() == o,
                    forall|q: int| 0 <= q < o ==> #[trigger] d@[q] == 0,
                decreases PAGE_SIZE - o,
            {
                d.push(0);
                o += 1;
            }
            let ghost before = *self;
            assert(!is_mapped(before, vpn as int));
            let pg = Page { vpn, flags: f, data: d };
            let ghost pgv = pg;
            self.pages.push(pg);
            proof {
                let cur = *self;
                let n = before.pages@.len() as int;
                assert(cur.pages@ == before.pages@.push(pgv));
                assert(cur.pages@[n].vpn == vpn && cur.pages@[n].flags == f);
                assert(forall|q: int| 0 <= q < PAGE_SIZE ==> #[trigger] cur.pages@[n].data@[q] == 0);
                assert forall|i: int, j: int|
                    #![trigger cur.pages@[i].vpn, cur.pages@[j].vpn]
                    0 <= i < j < cur.pages@.len() implies cur.pages@[i].vpn != cur.pages@[j].vpn by {
                    if j == n {
                        if cur.pages@[i].vpn == vpn {
                            assert(before.pages@[i].vpn == vpn);
                            assert(is_mapped(before, vpn as int));
                        }
                    }
                }
                assert(ms_wf(cur));
                assert forall|w: int| #[trigger] is_mapped(cur, w)
                    == (is_mapped(before, w) || w == vpn) by {
                    if is_mapped(before, w) {
                        let q = page_index(before, w);
                        assert(0 <= q < n && before.pages@[q].vpn == w);
                        assert(cur.pages@[q].vpn == w);
                        assert(is_mapped(cur, w));
                    }
                    if w == vpn {
                        assert(cur.pages@[n].vpn == w);
                        assert(is_mapped(cur, w));
                    }
                    if is_mapped(cur, w) && w != vpn {
                        let q = page_index(cur, w);
                        assert(0 <= q < cur.pages@.len() && cur.pages@[q].vpn == w);
                        assert(q != n);
                        assert(before.pages@[q].vpn == w);
                        assert(is_mapped(before, w));
                    }
                }
                assert forall|w: int| is_mapped(before, w)
                    implies cur.pages@[#[trigger] page_index(cur, w)] == before.pages@[page_index(before, w)] by {
                    let q = page_index(before, w);
                    assert(0 <= q < n && before.pages@[q].vpn == w);
                    assert(cur.pages@[q].vpn == w);
                    let qc = page_index(cur, w);
                    assert(0 <= qc < cur.pages@.len() && cur.pages@[qc].vpn == w);
                    if qc < q {
                        assert(cur.pages@[qc].vpn != cur.pages@[q].vpn);
                    }
                    if q < qc {
                        assert(cur.pages@[q].vpn != cur.pages@[qc].vpn);
                    }
                }
                assert(page_index(cur, vpn as int) == n) by {
                    assert(cur.pages@[n].vpn == vpn);
                    assert(is_mapped(cur, vpn as int));
                    let qc = page_index(cur, vpn as int);
                    assert(0 <= qc < cur.pages@.len() && cur.pages@[qc].vpn == vpn);
                    if qc < n {
                        assert(before.pages@[qc].vpn == vpn);
                        assert(is_mapped(before, vpn as int));
                    }
                }
                assert(page_flags(cur, vpn as int) == f);
                assert forall|w: int| first <= w < vpn + 1 implies #[trigger] is_mapped(cur, w)
                    && page_flags(cur, w) == f
                    && (forall|q: int| 0 <= q < PAGE_SIZE
                        ==> #[trigger] cur.pages@[page_index(cur, w)].data@[q] == 0) by {
                    if w < vpn {
                        assert(is_mapped(before, w));
                        assert(cur.pages@[page_index(cur, w)] == before.pages@[page_index(before, w)]);
                    }
                }
                assert forall|w: int| !(first <= w < vpn + 1)
                    implies #[trigger] is_mapped(cur, w) == is_mapped(pre, w)
                        && (is_mapped(pre, w)
                            ==> cur.pages@[page_index(cur, w)] == pre.pages@[page_index(pre, w)]) by {
                    assert(w != vpn);
                    assert(is_mapped(cur, w) == is_mapped(before, w));
                    assert(is_mapped(before, w) == is_mapped(pre, w));
                    if is_mapped(pre, w) {
                        assert(before.pages@[page_index(before, w)] == pre.pages@[page_index(pre, w)]);
                        assert(cur.pages@[page_index(cur, w)] == before.pages@[page_index(before, w)]);
                    }
                }
                assert(pages_preserved_except(pre, cur, first as int, vpn as int + 1));
            }
            vpn += 1;
        }
        proof {
            assert(pre == *old(self));
            assert(vpn == last + 1);
            assert forall|w: int| len > 0
                && start as int / (PAGE_SIZE as int) <= w <= (start + len - 1) / (PAGE_SIZE as int)
                implies #[trigger] vpn_ok(*self, w, prot_to_flags(prot))
                    && page_flags(*self, w) == prot_to_flags(prot) by {
                assert(first <= w <= last);
                assert(first <= w < vpn);
                assert(is_mapped(*self, w));
                assert(page_flags(*self, w) == f);
                assert(f == prot_to_flags(prot));
                assert(f & f == f);
            }
            assert forall|va: int| start <= va < start + len implies #[trigger] byte_at(*self, va) == 0 by {
                lemma_div_is_ordered(start as int, va, PAGE_SIZE as int);
                lemma_div_is_ordered(va, start + len - 1, PAGE_SIZE as int);
                let w = va / (PAGE_SIZE as int);
                assert(is_mapped(*self, w));
                assert(0 <= va % (PAGE_SIZE as int) < PAGE_SIZE);
            }
            assert(vpn == last + 1);
            assert(pages_preserved_except(pre, *self, first as int, last as int + 1));
        }
        0
    }

    /// Unmaps the page-aligned range `[start, start + len)`.  Fails, leaving
    /// the address space untouched, when the request is misaligned,
    /// overflows the address width, or covers a page that is not mapped.
    pub fn munmap(&mut self, start: usize, len: usize) -> (r: i32)
        requires
            ms_wf(*old(self)),
        ensures
            r == 0 || r == -1,
            (r == 0) <==> munmap_ok(*old(self), start as int, len as int),
            r == -1 ==> *final(self) == *old(self),
            ms_wf(*final(self)),
            r == 0 ==> forall|vpn: int| len > 0
                && start as int / (PAGE_SIZE as int) <= vpn <= (start + len - 1) / (PAGE_SIZE as int)
                ==> !(#[trigger] is_mapped(*final(self), vpn)),
            r == 0 ==> pages_preserved_except(*old(self), *final(self),
                start as int / (PAGE_SIZE as int),
                if len == 0 { start as int / (PAGE_SIZE as int) } else { (start + len - 1) / (PAGE_SIZE as int) + 1 }),
    {
        if start % PAGE_SIZE != 0 {
            return -1;
        }
        if len == 0 {
            return 0;
        }
        if len > usize::MAX - start {
            return -1;
        }
        if !check_range(self, start, len, 0) {
            proof {
                if munmap_ok(*self, start as int, len as int) {
                    assert forall|v: int|
                        start as int / (PAGE_SIZE as int) <= v <= (start + len - 1) / (PAGE_SIZE as int)
                        implies #[trigger] vpn_ok(*self, v, 0) by {
                        assert(is_mapped(*self, v));
                        assert(page_flags(*self, v) & 0 == 0) by (bit_vector);
                    }
                    assert(transfer_ok(*self, start as int, len as int, 0));
                }
            }
            return -1;
        }
        let first: usize = start / PAGE_SIZE;
        let last: usize = (start + len - 1) / PAGE_SIZE;
        proof {
            assert forall|vpn: int| first <= vpn <= last implies #[trigger] is_mapped(*self, vpn) by {
                assert(vpn_ok(*self, vpn, 0));
            }
        }
        let ghost pre = *self;
        let mut vpn: usize = first;
        while vpn <= last
            invariant
                ms_wf(pre),
                len > 0,
                first == start as int / (PAGE_SIZE as int),
                last == (start + len - 1) / (PAGE_SIZE as int),
                first <= vpn <= last + 1,
                forall|w: int| first <= w <= last ==> #[trigger] is_mapped(pre, w),
                ms_wf(*self),
                forall|w: int| first <= w < vpn ==> !(#[trigger] is_mapped(*self, w)),
                pages_preserved_except(pre, *self, first as int, vpn as int),
            decreases last + 1 - vpn,
        {
            let ghost before = *self;
            assert(is_mapped(before, vpn as int));
            let idx = match find_page(self, vpn) {
                Some(x) => x,
                None => { proof { assert(false); } 0 },
            };
            self.pages.remove(idx);
            proof {
                lemma_remove_page(before, *self, idx as int);
                assert(before.pages@[idx as int].vpn == vpn);
                assert forall|w: int| !(first <= w < vpn + 1)
                    implies #[trigger] is_mapped(*self, w) == is_mapped(pre, w)
                        && (is_mapped(pre, w)
                            ==> self.pages@[page_index(*self, w)] == pre.pages@[page_index(pre, w)]) by {
                    assert(w != vpn);
                    assert(is_mapped(*self, w) == is_mapped(before, w));
                    assert(is_mapped(before, w) == is_mapped(pre, w));
                    if is_mapped(pre, w) {
                        assert(self.pages@[page_index(*self, w)] == before.pages@[page_index(before, w)]);
                        assert(before.pages@[page_index(before, w)] == pre.pages@[page_index(pre, w)]);
                    }
                }
                assert(pages_preserved_except(pre, *self, first as int, vpn as int + 1));
                assert forall|w: int| first <= w < vpn + 1 implies !(#[trigger] is_mapped(*self, w)) by {
                    if w < vpn {
                        assert(!is_mapped(before, w));
                        assert(is_mapped(*self, w) == is_mapped(before, w));
                    } else {
                        assert(!is_mapped(*self, before.pages@[idx as int].vpn as int));
                    }
                }
            }
            vpn += 1;
        }
        proof {
            assert(pre == *old(self));
            assert(vpn == last + 1);
            assert(pages_preserved_except(pre, *self, first as int, last as int + 1));
        }
        0
    }
}

/// True exactly when no page of the addressable range `[start, start + len)`
/// is mapped.
pub fn check_unmapped(ms: &MemorySet, start: usize, len: usize) -> (r: bool)
    requires
        ms_wf(*ms),
        len > 0,
        start + len <= usize::MAX,
    ensures
        r <==> forall|vpn: int|
            start as int / (PAGE_SIZE as int) <= vpn <= (start + len - 1) / (PAGE_SIZE as int)
                ==> !(#[trigger] is_mapped(*ms, vpn)),
{
    let first: usize = start / PAGE_SIZE;
    let last: usize = (start + len - 1) / PAGE_SIZE;
    let mut vpn: usize = first;
    while vpn <= last
        invariant
            ms_wf(*ms),
            len > 0,
            start + len <= usize::MAX,
            first == start as int / (PAGE_SIZE as int),
            last == (start + len - 1) / (PAGE_SIZE as int),
            first <= vpn <= last + 1,
            forall|w: int| first <= w < vpn ==> !(#[trigger] is_mapped(*ms, w)),
        decreases last + 1 - vpn,
    {
        match find_page(ms, vpn) {
            Some(_) => {
                return false;
            },
            None => {},
        }
        vpn += 1;
    }
    true
}

} // verus!

