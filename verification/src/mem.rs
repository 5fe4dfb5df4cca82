//! Virtual memory areas of one task: a set of mapped pages with
//! permissions and demand-backed byte contents, together with the
//! validated map/unmap operations and the byte-window write path used
//! by the accounting syscalls.

use vstd::prelude::*;
use crate::config::PAGE_SIZE;

verus! {

/// One mapped virtual page: its page number, its permission bits
/// (bit 0 read, bit 1 write, bit 2 execute, bit 3 user-accessible),
/// and its backing bytes.
pub struct Page {
    pub vpn: usize,
    pub perm: u8,
    pub bytes: Vec<u8>,
}

/// A task's virtual address space: the pages currently mapped.
pub struct AddressSpace {
    pub pages: Vec<Page>,
}

/// `a` lies on a page boundary.
pub open spec fn page_aligned(a: usize) -> bool {
    a % PAGE_SIZE == 0
}

/// A map request's permission byte is well-formed: at least one of the
/// three low bits (read/write/execute) is set and no higher bit is.
pub open spec fn valid_port(port: usize) -> bool {
    0 < port < 8
}

/// Permission byte granted for a request: the three low bits of `port`
/// plus the user-accessible bit (bit 3).
pub open spec fn perm_of_port(port: usize) -> u8
    recommends
        valid_port(port),
{
    (port + 8) as u8
}

/// Page number of the page containing address `a`.
pub open spec fn vpn_of(a: int) -> int {
    a / (PAGE_SIZE as int)
}

/// First page of the range covering `[start, start + len)`.
pub open spec fn range_lo(start: usize) -> int {
    (start as int) / (PAGE_SIZE as int)
}

/// One past the last page of the range covering `[start, start + len)`,
/// the end rounded up to a full page.
pub open spec fn range_hi(start: usize, len: usize) -> int {
    (start as int + len as int + PAGE_SIZE as int - 1) / (PAGE_SIZE as int)
}

/// Some page of `s` has number `vpn`.
pub open spec fn mapped_in(s: Seq<Page>, vpn: int) -> bool {
    exists|i: int| 0 <= i < s.len() && (#[trigger] s[i]).vpn == vpn
}

/// Index of the page of `s` with number `vpn` (unique when page
/// numbers are distinct).
pub open spec fn vpn_index(s: Seq<Page>, vpn: int) -> int {
    choose|i: int| 0 <= i < s.len() && (#[trigger] s[i]).vpn == vpn
}

/// The page of `s` with number `vpn`.
pub open spec fn page_with(s: Seq<Page>, vpn: int) -> Page {
    s[vpn_index(s, vpn)]
}

/// No two pages of `s` share a page number.
pub open spec fn distinct_vpns(s: Seq<Page>) -> bool {
    forall|i: int, j: int|
        0 <= i < j < s.len() ==> (#[trigger] s[i]).vpn != (#[trigger] s[j]).vpn
}

/// Every page of `s` holds exactly one page worth of bytes.
pub open spec fn pages_sized(s: Seq<Page>) -> bool {
    forall|i: int| 0 <= i < s.len() ==> (#[trigger] s[i]).bytes.len() == PAGE_SIZE
}

pub proof fn lemma_vpn_index_unique(s: Seq<Page>, i: int)
    requires
        distinct_vpns(s),
        0 <= i < s.len(),
    ensures
        mapped_in(s, s[i].vpn as int),
        vpn_index(s, s[i].vpn as int) == i,
{
    let v = s[i].vpn as int;
    assert(mapped_in(s, v));
    let j = vpn_index(s, v);
    assert(0 <= j < s.len() && s[j].vpn == v);
    if j != i {
        assert(s[i].vpn != s[j].vpn);
    }
}

impl AddressSpace {
    /// Internal consistency: page numbers distinct, page bodies full-sized.
    pub open spec fn wf(self) -> bool {
        distinct_vpns(self.pages@) && pages_sized(self.pages@)
    }

    /// Page `vpn` is mapped.
    pub open spec fn is_mapped(self, vpn: int) -> bool {
        mapped_in(self.pages@, vpn)
    }

    /// The mapped page numbered `vpn`.
    pub open spec fn page_at(self, vpn: int) -> Page {
        page_with(self.pages@, vpn)
    }

    /// The byte stored at virtual address `a`.
    pub open spec fn byte_at(self, a: int) -> u8 {
        self.page_at(vpn_of(a)).bytes[a % (PAGE_SIZE as int)]
    }

    /// No page of `[lo, hi)` is mapped.
    pub open spec fn range_free(self, lo: int, hi: int) -> bool {
        forall|v: int| lo <= v < hi ==> !self.is_mapped(v)
    }

    /// Every page of `[lo, hi)` is mapped.
    pub open spec fn range_mapped(self, lo: int, hi: int) -> bool {
        forall|v: int| lo <= v < hi ==> self.is_mapped(v)
    }

    /// Every address of the byte span `[a, a + n)` lies in a mapped page.
    pub open spec fn span_mapped(self, a: int, n: int) -> bool {
        forall|k: int| 0 <= k < n ==> self.is_mapped(#[trigger] vpn_of(a + k))
    }

    /// State relation of a successful map: every page of `[lo, hi)` is
    /// newly mapped with permission `perm` and zeroed contents, and no
    /// other page changes.
    pub open spec fn maps_added(pre: Self, post: Self, lo: int, hi: int, perm: u8) -> bool {
        &&& forall|v: int| lo <= v < hi ==> #[trigger] post.is_mapped(v)
        &&& forall|v: int|
            lo <= v < hi ==> (#[trigger] post.page_at(v)).perm == perm && post.page_at(
                v,
            ).bytes@ =~= Seq::new(PAGE_SIZE as nat, |j: int| 0u8)
        &&& forall|v: int|
            !(lo <= v < hi) ==> #[trigger] post.is_mapped(v) == pre.is_mapped(v) && (pre.is_mapped(
                v,
            ) ==> post.page_at(v) == pre.page_at(v))
    }

    /// State relation of a successful unmap: no page of `[lo, hi)`
    /// remains mapped, and no other page changes.
    pub open spec fn maps_removed(pre: Self, post: Self, lo: int, hi: int) -> bool {
        &&& forall|v: int| lo <= v < hi ==> !(#[trigger] post.is_mapped(v))
        &&& forall|v: int|
            !(lo <= v < hi) ==> #[trigger] post.is_mapped(v) == pre.is_mapped(v) && (pre.is_mapped(
                v,
            ) ==> post.page_at(v) == pre.page_at(v))
    }

    /// An empty address space.
    pub fn new() -> (r: AddressSpace)
        ensures
            r.wf(),
            r.pages@.len() == 0,
    {
        AddressSpace { pages: Vec::new() }
    }

    /// Index of the page numbered `vpn`, if it is mapped.
    pub fn find_page(&self, vpn: usize) -> (r: Option<usize>)
        requires
            self.wf(),
        ensures
            match r {
                Some(i) => i < self.pages@.len() && self.pages@[i as int].vpn == vpn
                    && vpn_index(self.pages@, vpn as int) == i && self.is_mapped(vpn as int),
                None => !self.is_mapped(vpn as int),
            },
    {
        let n = self.pages.len();
        for i in 0..n
            invariant
                n == self.pages@.len(),
                self.wf(),
                forall|k: int| 0 <= k < i ==> (#[trigger] self.pages@[k]).vpn != vpn,
        {
            if self.pages[i].vpn == vpn {
                proof {
                    lemma_vpn_index_unique(self.pages@, i as int);
                }
                return Some(i);
            }
        }
        assert(!self.is_mapped(vpn as int));
        None
    }

    /// Map the page range covering `[start, start + len)` with the
    /// permissions requested by `port`, after validating alignment and
    /// the permission byte and rejecting any overlap with an existing
    /// mapping.  A rejected request leaves the space untouched.
    pub fn mmap(&mut self, start: usize, len: usize, port: usize) -> (r: isize)
        requires
            old(self).wf(),
            start + len <= usize::MAX - PAGE_SIZE,
        ensures
            final (self).wf(),
            mmap_accepts(*old(self), start, len, port) ==> r == 0 && AddressSpace::maps_added(
                *old(self),
                *final (self),
                range_lo(start),
                range_hi(start, len),
                perm_of_port(port),
            ),
            !mmap_accepts(*old(self), start, len, port) ==> r == -1 && *final (self) == *old(self),
    {
        if start % PAGE_SIZE != 0 {
            return -1;
        }
        if port == 0 || port >= 8 {
            return -1;
        }
        let lo = start / PAGE_SIZE;
        let hi = (start + len + (PAGE_SIZE - 1)) / PAGE_SIZE;
        let mut v = lo;
        while v < hi
            invariant
                self == old(self),
                self.wf(),
                lo <= v <= hi,
                lo == range_lo(start),
                hi == range_hi(start, len),
                forall|w: int| lo <= w < v ==> !self.is_mapped(w),
            decreases hi - v,
        {
            if self.find_page(v).is_some() {
                return -1;
            }
            v += 1;
        }
        assert(self.range_free(lo as int, hi as int));
        let perm: u8 = (port as u8) + 8;
        let ghost n0 = self.pages@.len() as int;
        let mut w = lo;
        while w < hi
            invariant
                lo <= w <= hi,
                old(self).wf(),
                old(self).range_free(lo as int, hi as int),
                n0 == old(self).pages@.len(),
                self.pages@.len() == n0 + (w - lo),
                forall|k: int| 0 <= k < n0 ==> self.pages@[k] == old(self).pages@[k],
                forall|k: int|
                    n0 <= k < self.pages@.len() ==> (#[trigger] self.pages@[k]).vpn == lo + (k - n0)
                        && self.pages@[k].perm == perm && self.pages@[k].bytes@ =~= Seq::new(
                        PAGE_SIZE as nat,
                        |j: int| 0u8,
                    ),
                self.wf(),
            decreases hi - w,
        {
            proof {
                assert forall|k: int| 0 <= k < self.pages@.len() implies (
                #[trigger] self.pages@[k]).vpn != w by {
                    if k < n0 {
                        if self.pages@[k].vpn == w {
                            assert(old(self).pages@[k].vpn == w);
                            assert(old(self).is_mapped(w as int));
                        }
                    }
                }
            }
            let bytes = zero_page();
            self.pages.push(Page { vpn: w, perm, bytes });
            w += 1;
        }
        assert(perm == perm_of_port(port));
        proof {
            let loi = lo as int;
            let hii = hi as int;
            assert forall|v: int| loi <= v < hii implies #[trigger] self.is_mapped(v) by {
                let k = n0 + (v - loi);
                assert(self.pages@[k].vpn == v);
            }
            assert forall|v: int| loi <= v < hii implies (#[trigger] self.page_at(v)).perm == perm
                && self.page_at(v).bytes@ =~= Seq::new(PAGE_SIZE as nat, |j: int| 0u8) by {
                let k = n0 + (v - loi);
                assert(self.pages@[k].vpn == v);
                lemma_vpn_index_unique(self.pages@, k);
            }
            assert forall|v: int| !(loi <= v < hii) implies #[trigger] self.is_mapped(v) == old(
                self,
            ).is_mapped(v) && (old(self).is_mapped(v) ==> self.page_at(v) == old(self).page_at(
                v,
            )) by {
                if old(self).is_mapped(v) {
                    let i = vpn_index(old(self).pages@, v);
                    assert(old(self).pages@[i].vpn == v);
                    lemma_vpn_index_unique(old(self).pages@, i);
                    assert(self.pages@[i].vpn == v);
                    lemma_vpn_index_unique(self.pages@, i);
                } else {
                    if self.is_mapped(v) {
                        let i = vpn_index(self.pages@, v);
                        assert(0 <= i < self.pages@.len() && self.pages@[i].vpn == v);
                        assert(i >= n0);
                    }
                }
            }
        }
        0
    }

    /// Unmap the page range covering `[start, start + len)`, after
    /// validating alignment and that every page of the range is
    /// currently mapped.  A rejected request leaves the space
    /// untouched, so no partial unmap is ever observable.
    pub fn munmap(&mut self, start: usize, len: usize) -> (r: isize)
        requires
            old(self).wf(),
            start + len <= usize::MAX - PAGE_SIZE,
        ensures
            final (self).wf(),
            munmap_accepts(*old(self), start, len) ==> r == 0 && AddressSpace::maps_removed(
                *old(self),
                *final (self),
                range_lo(start),
                range_hi(start, len),
            ),
            !munmap_accepts(*old(self), start, len) ==> r == -1 && *final (self) == *old(self),
    {
        if start % PAGE_SIZE != 0 {
            return -1;
        }
        let lo = start / PAGE_SIZE;
        let hi = (start + len + (PAGE_SIZE - 1)) / PAGE_SIZE;
        let mut v = lo;
        while v < hi
            invariant
                self == old(self),
                self.wf(),
                lo <= v <= hi,
                lo == range_lo(start),
                hi == range_hi(start, len),
                forall|w: int| lo <= w < v ==> self.is_mapped(w),
            decreases hi - v,
        {
            if self.find_page(v).is_none() {
                return -1;
            }
            v += 1;
        }
        assert(self.range_mapped(lo as int, hi as int));
        let ghost orig = self.pages@;
        let ghost loi = lo as int;
        let ghost hii = hi as int;
        let ghost mut j: int = 0;
        let mut i: usize = 0;
        while i < self.pages.len()
            invariant
                distinct_vpns(orig),
                pages_sized(orig),
                loi == lo as int,
                hii == hi as int,
                0 <= j <= orig.len(),
                self.pages@ =~= drop_page_range(orig.take(j), loi, hii) + orig.skip(j),
                i as int == drop_page_range(orig.take(j), loi, hii).len(),
            decreases self.pages@.len() - i,
        {
            proof {
                assert(self.pages@[i as int] == orig.skip(j)[0]);
                assert(orig.skip(j)[0] == orig[j]);
                assert(orig.take(j + 1).drop_last() =~= orig.take(j));
                assert(orig.take(j + 1).drop_last() == orig.take(j));
                assert(orig.take(j + 1).last() == orig[j]);
                lemma_drop_page_range_step(orig.take(j + 1), loi, hii);
            }
            let vp = self.pages[i].vpn;
            if lo <= vp && vp < hi {
                self.pages.remove(i);
                proof {
                    assert(self.pages@ =~= drop_page_range(orig.take(j + 1), loi, hii) + orig.skip(
                        j + 1,
                    ));
                    j = j + 1;
                }
            } else {
                i += 1;
                proof {
                    assert(drop_page_range(orig.take(j + 1), loi, hii) =~= drop_page_range(
                        orig.take(j),
                        loi,
                        hii,
                    ).push(orig[j]));
                    assert(self.pages@ =~= drop_page_range(orig.take(j + 1), loi, hii) + orig.skip(
                        j + 1,
                    ));
                    j = j + 1;
                }
            }
        }
        proof {
            assert(j == orig.len());
            assert(orig.take(j) =~= orig);
            assert(self.pages@ =~= drop_page_range(orig, loi, hii));
            lemma_drop_page_range(orig, loi, hii);
        }
        0
    }

    /// Read the byte stored at virtual address `a`.
    pub fn read_byte(&self, a: usize) -> (r: u8)
        requires
            self.wf(),
            self.is_mapped(vpn_of(a as int)),
        ensures
            r == self.byte_at(a as int),
    {
        let vpn = a / PAGE_SIZE;
        let off = a % PAGE_SIZE;
        let i = self.find_page(vpn).unwrap();
        self.pages[i].bytes[off]
    }

    /// Write one byte at virtual address `a` into whichever mapped
    /// page contains it.
    pub fn write_byte(&mut self, a: usize, val: u8)
        requires
            old(self).wf(),
            old(self).is_mapped(vpn_of(a as int)),
        ensures
            final (self).wf(),
            forall|v: int| #[trigger] final (self).is_mapped(v) == old(self).is_mapped(v),
            forall|v: int|
                old(self).is_mapped(v) ==> (#[trigger] final (self).page_at(v)).vpn == old(
                    self,
                ).page_at(v).vpn && final (self).page_at(v).perm == old(self).page_at(v).perm,
            forall|b: int|
                old(self).is_mapped(#[trigger] vpn_of(b)) ==> final (self).byte_at(b) == if b
                    == a as int {
                    val
                } else {
                    old(self).byte_at(b)
                },
    {
        let vpn = a / PAGE_SIZE;
        let off = a % PAGE_SIZE;
        let i = self.find_page(vpn).unwrap();
        self.pages[i].bytes[off] = val;
        proof {
            let s0 = old(self).pages@;
            let s1 = self.pages@;
            let ii = i as int;
            assert(s1 =~= s0.update(ii, s1[ii]));
            assert(s1[ii].vpn == s0[ii].vpn);
            assert(s1[ii].perm == s0[ii].perm);
            assert(s1[ii].bytes@ =~= s0[ii].bytes@.update(off as int, val));
            assert forall|v: int| #[trigger] mapped_in(s1, v) == mapped_in(s0, v) by {
                if mapped_in(s0, v) {
                    let k = vpn_index(s0, v);
                    assert(s1[k].vpn == v);
                }
                if mapped_in(s1, v) {
                    let k = vpn_index(s1, v);
                    assert(s0[k].vpn == v);
                }
            }
            assert(distinct_vpns(s1)) by {
                assert forall|x: int, y: int| 0 <= x < y < s1.len() implies (#[trigger] s1[x]).vpn
                    != (#[trigger] s1[y]).vpn by {
                    assert(s0[x].vpn != s0[y].vpn);
                }
            }
            assert forall|v: int| mapped_in(s0, v) implies vpn_index(s1, v) == vpn_index(
                s0,
                v,
            ) by {
                let k = vpn_index(s0, v);
                assert(s0[k].vpn == v);
                assert(s1[k].vpn == v);
                lemma_vpn_index_unique(s1, k);
            }
            assert forall|b: int|
                old(self).is_mapped(#[trigger] vpn_of(b)) implies self.byte_at(b) == if b
                == a as int {
                val
            } else {
                old(self).byte_at(b)
            } by {
                let v = vpn_of(b);
                let k = vpn_index(s0, v);
                vstd::arithmetic::div_mod::lemma_fundamental_div_mod(b, PAGE_SIZE as int);
                vstd::arithmetic::div_mod::lemma_fundamental_div_mod(a as int, PAGE_SIZE as int);
                if k == ii {
                    assert(self.page_at(v) == s1[ii]);
                    assert(old(self).page_at(v) == s0[ii]);
                    if b == a as int {
                        assert(b % (PAGE_SIZE as int) == off as int);
                    } else {
                        if v == vpn as int {
                            assert(b % (PAGE_SIZE as int) != off as int);
                        }
                    }
                } else {
                    assert(s1[k] == s0[k]);
                    assert(v != s0[ii].vpn as int);
                    assert(b != a as int);
                }
            }
        }
    }

    /// Write `data` starting at virtual address `a`, byte by byte, so
    /// the record lands correctly in every page its span touches even
    /// when the span straddles one or more page boundaries.
    pub fn write_bytes(&mut self, a: usize, data: &Vec<u8>)
        requires
            old(self).wf(),
            a + data@.len() <= usize::MAX,
            old(self).span_mapped(a as int, data@.len() as int),
        ensures
            final (self).wf(),
            forall|v: int| #[trigger] final (self).is_mapped(v) == old(self).is_mapped(v),
            forall|v: int|
                old(self).is_mapped(v) ==> (#[trigger] final (self).page_at(v)).vpn == old(
                    self,
                ).page_at(v).vpn && final (self).page_at(v).perm == old(self).page_at(v).perm,
            forall|k: int|
                0 <= k < data@.len() ==> #[trigger] final (self).byte_at(a + k) == data@[k],
            forall|b: int|
                old(self).is_mapped(#[trigger] vpn_of(b)) && !(a <= b < a + data@.len())
                    ==> final (self).byte_at(b) == old(self).byte_at(b),
    {
        let n = data.len();
        let mut k: usize = 0;
        while k < n
            invariant
                n == data@.len(),
                k <= n,
                a + n <= usize::MAX,
                self.wf(),
                old(self).span_mapped(a as int, n as int),
                forall|v: int| #[trigger] self.is_mapped(v) == old(self).is_mapped(v),
                forall|v: int|
                    old(self).is_mapped(v) ==> (#[trigger] self.page_at(v)).vpn == old(
                        self,
                    ).page_at(v).vpn && self.page_at(v).perm == old(self).page_at(v).perm,
                forall|j: int| 0 <= j < k ==> #[trigger] self.byte_at(a + j) == data@[j],
                forall|b: int|
                    old(self).is_mapped(#[trigger] vpn_of(b)) && !(a <= b < a + k) ==> self.byte_at(
                        b,
                    ) == old(self).byte_at(b),
            decreases n - k,
        {
            assert(self.is_mapped(vpn_of(a + k)));
            self.write_byte(a + k, data[k]);
            k += 1;
        }
    }
}

/// `a` and `b` map the same pages with the same permissions and the
/// same contents.
pub open spec fn space_equiv(a: AddressSpace, b: AddressSpace) -> bool {
    &&& forall|v: int| #[trigger] a.is_mapped(v) == b.is_mapped(v)
    &&& forall|v: int|
        a.is_mapped(v) ==> (#[trigger] a.page_at(v)).vpn == b.page_at(v).vpn && a.page_at(v).perm
            == b.page_at(v).perm && a.page_at(v).bytes@ == b.page_at(v).bytes@
}

impl AddressSpace {
    /// A deep copy of this address space, page by page and byte by
    /// byte, as a fork needs.
    pub fn duplicate(&self) -> (r: AddressSpace)
        requires
            self.wf(),
        ensures
            r.wf(),
            space_equiv(*self, r),
    {
        let mut pages: Vec<Page> = Vec::new();
        let n = self.pages.len();
        for i in 0..n
            invariant
                n == self.pages@.len(),
                self.wf(),
                pages@.len() == i,
                forall|k: int|
                    0 <= k < i ==> (#[trigger] pages@[k]).vpn == self.pages@[k].vpn && pages@[k].perm
                        == self.pages@[k].perm && pages@[k].bytes@ == self.pages@[k].bytes@,
        {
            let src = &self.pages[i];
            let bytes = copy_bytes(&src.bytes);
            pages.push(Page { vpn: src.vpn, perm: src.perm, bytes });
        }
        let r = AddressSpace { pages };
        proof {
            assert forall|v: int| #[trigger] self.is_mapped(v) == r.is_mapped(v) by {
                if self.is_mapped(v) {
                    let k = vpn_index(self.pages@, v);
                    assert(r.pages@[k].vpn == v);
                }
                if r.is_mapped(v) {
                    let k = vpn_index(r.pages@, v);
                    assert(self.pages@[k].vpn == v);
                }
            }
            assert(distinct_vpns(r.pages@)) by {
                assert forall|x: int, y: int| 0 <= x < y < r.pages@.len() implies (
                #[trigger] r.pages@[x]).vpn != (#[trigger] r.pages@[y]).vpn by {
                    assert(self.pages@[x].vpn != self.pages@[y].vpn);
                }
            }
            assert forall|v: int| self.is_mapped(v) implies (#[trigger] self.page_at(v)).vpn
                == r.page_at(v).vpn && self.page_at(v).perm == r.page_at(v).perm && self.page_at(
                v,
            ).bytes@ == r.page_at(v).bytes@ by {
                let k = vpn_index(self.pages@, v);
                assert(r.pages@[k].vpn == v);
                lemma_vpn_index_unique(r.pages@, k);
            }
        }
        r
    }
}

/// `s` is exactly the address space a freshly loaded program image
/// `image` produces: one read/write/execute user page for every page
/// of the image, holding the image's bytes padded with zeroes.
pub open spec fn loads_image(s: AddressSpace, image: Seq<u8>) -> bool {
    &&& s.wf()
    &&& forall|v: int| #[trigger] s.is_mapped(v) <==> 0 <= v < image_pages(image.len() as int)
    &&& forall|v: int|
        0 <= v < image_pages(image.len() as int) ==> (#[trigger] s.page_at(v)).perm == 15u8
            && forall|j: int|
            0 <= j < PAGE_SIZE ==> s.page_at(v).bytes@[j] == (if v * PAGE_SIZE + j < image.len() {
                image[v * PAGE_SIZE + j]
            } else {
                0u8
            })
}

/// Number of pages an image of `len` bytes occupies, the end rounded
/// up to a full page.
pub open spec fn image_pages(len: int) -> int {
    (len + PAGE_SIZE as int - 1) / (PAGE_SIZE as int)
}

/// Build the address space for a program image: read/write/execute
/// user pages holding the image's bytes, zero-padded to a page.
pub fn load_image(image: &Vec<u8>) -> (r: AddressSpace)
    requires
        image@.len() <= usize::MAX - PAGE_SIZE,
    ensures
        loads_image(r, image@),
{
    let len = image.len();
    let npages = (len + (PAGE_SIZE - 1)) / PAGE_SIZE;
    let mut pages: Vec<Page> = Vec::new();
    let mut v: usize = 0;
    while v < npages
        invariant
            len == image@.len(),
            npages == image_pages(len as int),
            0 <= npages,
            v <= npages,
            len + PAGE_SIZE <= usize::MAX,
            npages * PAGE_SIZE <= len + PAGE_SIZE,
            pages@.len() == v,
            forall|k: int|
                0 <= k < v ==> (#[trigger] pages@[k]).vpn == k && pages@[k].perm == 15u8
                    && pages@[k].bytes@.len() == PAGE_SIZE,
            forall|k: int, j: int|
                0 <= k < v && 0 <= j < PAGE_SIZE ==> #[trigger] pages@[k].bytes@[j] == (if k
                    * PAGE_SIZE + j < len {
                    image@[k * PAGE_SIZE + j]
                } else {
                    0u8
                }),
        decreases npages - v,
    {
        proof {
            assert(v * PAGE_SIZE + PAGE_SIZE <= npages * PAGE_SIZE) by (nonlinear_arith)
                requires
                    v < npages,
                    PAGE_SIZE > 0,
            ;
        }
        let base = v * PAGE_SIZE;
        let mut bytes: Vec<u8> = Vec::new();
        let mut j: usize = 0;
        while j < PAGE_SIZE
            invariant
                len == image@.len(),
                base == v * PAGE_SIZE,
                base + PAGE_SIZE <= len + PAGE_SIZE,
                j <= PAGE_SIZE,
                bytes@.len() == j,
                forall|q: int|
                    0 <= q < j ==> #[trigger] bytes@[q] == (if base + q < len {
                        image@[base + q]
                    } else {
                        0u8
                    }),
            decreases PAGE_SIZE - j,
        {
            if base + j < len {
                bytes.push(image[base + j]);
            } else {
                bytes.push(0u8);
            }
            j += 1;
        }
        pages.push(Page { vpn: v, perm: 15u8, bytes });
        v += 1;
    }
    let r = AddressSpace { pages };
    proof {
        let np = image_pages(len as int);
        assert(distinct_vpns(r.pages@));
        assert(pages_sized(r.pages@));
        assert forall|w: int| #[trigger] r.is_mapped(w) <==> 0 <= w < np by {
            if 0 <= w < np {
                assert(r.pages@[w].vpn == w);
            }
            if r.is_mapped(w) {
                let k = vpn_index(r.pages@, w);
            }
        }
        assert forall|w: int| 0 <= w < np implies (#[trigger] r.page_at(w)).perm == 15u8
            && forall|j: int|
            0 <= j < PAGE_SIZE ==> r.page_at(w).bytes@[j] == (if w * PAGE_SIZE + j < len {
                image@[w * PAGE_SIZE + j]
            } else {
                0u8
            }) by {
            assert(r.pages@[w].vpn == w);
            lemma_vpn_index_unique(r.pages@, w);
        }
    }
    r
}

/// A byte-for-byte copy of `src`.
fn copy_bytes(src: &Vec<u8>) -> (r: Vec<u8>)
    ensures
        r@ == src@,
{
    let mut r: Vec<u8> = Vec::new();
    let n = src.len();
    for i in 0..n
        invariant
            n == src@.len(),
            r@.len() == i,
            forall|k: int| 0 <= k < i ==> r@[k] == src@[k],
    {
        r.push(src[i]);
    }
    assert(r@ =~= src@);
    r
}

/// The request `mmap(start, len, port)` passes validation: `start` is
/// page-aligned, the permission byte is well-formed, and the page
/// range covering `[start, start + len)` is entirely unmapped.
pub open spec fn mmap_accepts(pre: AddressSpace, start: usize, len: usize, port: usize) -> bool {
    page_aligned(start) && valid_port(port) && pre.range_free(range_lo(start), range_hi(start, len))
}

/// The request `munmap(start, len)` passes validation: `start` is
/// page-aligned and the page range covering `[start, start + len)` is
/// entirely mapped.
pub open spec fn munmap_accepts(pre: AddressSpace, start: usize, len: usize) -> bool {
    page_aligned(start) && pre.range_mapped(range_lo(start), range_hi(start, len))
}

/// The pages of `s` whose numbers lie outside `[lo, hi)`, in order.
pub open spec fn drop_page_range(s: Seq<Page>, lo: int, hi: int) -> Seq<Page>
    decreases s.len(),
{
    if s.len() == 0 {
        Seq::empty()
    } else {
        let rest = drop_page_range(s.drop_last(), lo, hi);
        if lo <= s.last().vpn < hi {
            rest
        } else {
            rest.push(s.last())
        }
    }
}

pub proof fn lemma_drop_page_range_step(s: Seq<Page>, lo: int, hi: int)
    requires
        s.len() > 0,
    ensures
        lo <= s.last().vpn < hi ==> drop_page_range(s, lo, hi) == drop_page_range(
            s.drop_last(),
            lo,
            hi,
        ),
        !(lo <= s.last().vpn < hi) ==> drop_page_range(s, lo, hi) == drop_page_range(
            s.drop_last(),
            lo,
            hi,
        ).push(s.last()),
{
}

#[verifier::rlimit(100)]
pub proof fn lemma_drop_page_range(s: Seq<Page>, lo: int, hi: int)
    requires
        distinct_vpns(s),
        pages_sized(s),
    ensures
        distinct_vpns(drop_page_range(s, lo, hi)),
        pages_sized(drop_page_range(s, lo, hi)),
        forall|v: int| lo <= v < hi ==> !mapped_in(drop_page_range(s, lo, hi), v),
        forall|v: int|
            !(lo <= v < hi) ==> #[trigger] mapped_in(drop_page_range(s, lo, hi), v) == mapped_in(
                s,
                v,
            ) && (mapped_in(s, v) ==> page_with(drop_page_range(s, lo, hi), v) == page_with(s, v)),
    decreases s.len(),
{
    let r = drop_page_range(s, lo, hi);
    if s.len() == 0 {
        assert forall|v: int| !(lo <= v < hi) implies #[trigger] mapped_in(r, v) == mapped_in(s, v)
            && (mapped_in(s, v) ==> page_with(r, v) == page_with(s, v)) by {
            if mapped_in(r, v) {
                let i = vpn_index(r, v);
            }
            if mapped_in(s, v) {
                let i = vpn_index(s, v);
            }
        }
        assert forall|v: int| lo <= v < hi implies !(#[trigger] mapped_in(r, v)) by {
            if mapped_in(r, v) {
                let i = vpn_index(r, v);
            }
        }
    } else {
        let s0 = s.drop_last();
        let p = s.last();
        let r0 = drop_page_range(s0, lo, hi);
        assert(distinct_vpns(s0) && pages_sized(s0)) by {
            assert forall|i: int| 0 <= i < s0.len() implies (#[trigger] s0[i]).bytes.len()
                == PAGE_SIZE by {
                assert(s[i].bytes.len() == PAGE_SIZE);
            }
        }
        lemma_drop_page_range(s0, lo, hi);
        // relate membership in s to membership in s0 plus the last page
        assert forall|v: int| #[trigger] mapped_in(s, v) implies mapped_in(s0, v) || p.vpn == v by {
            let i = vpn_index(s, v);
            if i < s.len() - 1 {
                assert(s0[i].vpn == v);
            }
        }
        assert forall|v: int| #[trigger] mapped_in(s0, v) implies mapped_in(s, v) by {
            let i = vpn_index(s0, v);
            assert(s[i].vpn == v);
        }
        if lo <= p.vpn < hi {
            // r == r0: the last page is dropped
            assert forall|v: int| !(lo <= v < hi) implies #[trigger] mapped_in(r, v) == mapped_in(
                s,
                v,
            ) && (mapped_in(s, v) ==> page_with(r, v) == page_with(s, v)) by {
                if mapped_in(s, v) {
                    let i = vpn_index(s, v);
                    assert(i < s.len() - 1);
                    assert(s0[i].vpn == v);
                    lemma_vpn_index_unique(s0, i);
                    lemma_vpn_index_unique(s, i);
                    assert(mapped_in(r0, v));
                    assert(page_with(r0, v) == page_with(s0, v));
                    assert(page_with(s0, v) == s0[i]);
                    assert(s0[i] == s[i]);
                } else {
                    if mapped_in(r, v) {
                        assert(mapped_in(r0, v) == mapped_in(s0, v));
                        assert(mapped_in(s, v));
                    }
                }
            }
        } else {
            // r == r0.push(p)
            assert forall|v: int| #[trigger] mapped_in(r, v) implies mapped_in(r0, v) || p.vpn
                == v by {
                let i = vpn_index(r, v);
                if i < r.len() - 1 {
                    assert(r0[i].vpn == v);
                }
            }
            assert(!mapped_in(r0, p.vpn as int)) by {
                if mapped_in(r0, p.vpn as int) {
                    assert(mapped_in(s0, p.vpn as int));
                    let i = vpn_index(s0, p.vpn as int);
                    assert(s[i].vpn == s[s.len() - 1].vpn);
                }
            }
            assert(distinct_vpns(r)) by {
                assert forall|i: int, j: int| 0 <= i < j < r.len() implies (#[trigger] r[i]).vpn
                    != (#[trigger] r[j]).vpn by {
                    if j < r.len() - 1 {
                        assert(r0[i].vpn != r0[j].vpn);
                    } else {
                        assert(r0[i].vpn == r[i].vpn);
                        lemma_vpn_index_unique(r0, i);
                        assert(mapped_in(r0, r[i].vpn as int));
                    }
                }
            }
            assert forall|v: int| lo <= v < hi implies !(#[trigger] mapped_in(r, v)) by {
                if mapped_in(r, v) {
                    assert(mapped_in(r0, v) || p.vpn == v);
                }
            }
            assert forall|v: int| !(lo <= v < hi) implies #[trigger] mapped_in(r, v) == mapped_in(
                s,
                v,
            ) && (mapped_in(s, v) ==> page_with(r, v) == page_with(s, v)) by {
                if mapped_in(s, v) {
                    let i = vpn_index(s, v);
                    if i < s.len() - 1 {
                        assert(s0[i].vpn == v);
                        lemma_vpn_index_unique(s0, i);
                        assert(mapped_in(r0, v));
                        let k = vpn_index(r0, v);
                        assert(r[k].vpn == v);
                        lemma_vpn_index_unique(r, k);
                        lemma_vpn_index_unique(s, i);
                        assert(page_with(r, v) == page_with(r0, v));
                        assert(page_with(r0, v) == page_with(s0, v));
                        assert(page_with(s0, v) == s0[i]);
                        assert(s0[i] == s[i]);
                    } else {
                        // v is the last page's number, kept at the end of r
                        let k = r.len() - 1;
                        assert(r[k].vpn == v);
                        lemma_vpn_index_unique(r, k);
                        lemma_vpn_index_unique(s, i);
                    }
                } else {
                    if mapped_in(r, v) {
                        assert(mapped_in(r0, v) || p.vpn == v);
                    }
                }
            }
        }
    }
    assert forall|v: int|
        !(lo <= v < hi) implies #[trigger] mapped_in(drop_page_range(s, lo, hi), v) == mapped_in(
        s,
        v,
    ) && (mapped_in(s, v) ==> page_with(drop_page_range(s, lo, hi), v) == page_with(s, v)) by {
        assert(mapped_in(r, v) == mapped_in(s, v));
        if mapped_in(s, v) {
            assert(page_with(r, v) == page_with(s, v));
        }
    }
}

/// A full page of zero bytes.
fn zero_page() -> (r: Vec<u8>)
    ensures
        r@ =~= Seq::new(PAGE_SIZE as nat, |j: int| 0u8),
{
    let mut r: Vec<u8> = Vec::new();
    let mut i: usize = 0;
    while i < PAGE_SIZE
        invariant
            i == r@.len(),
            i <= PAGE_SIZE,
            forall|j: int| 0 <= j < i ==> r@[j] == 0u8,
        decreases PAGE_SIZE - i,
    {
        r.push(0u8);
        i += 1;
    }
    r
}


/// A page-aligned request of at least one byte covers at least one
/// full page.
pub proof fn lemma_range_nonempty(start: usize, len: usize)
    requires
        page_aligned(start),
        0 < len,
    ensures
        range_lo(start) < range_hi(start, len),
{
    let p = PAGE_SIZE as int;
    let s = start as int;
    let l = len as int;
    vstd::arithmetic::div_mod::lemma_hoist_over_denominator(s, 1, PAGE_SIZE as nat);
    assert(s / p + 1 == (s + p) / p);
    vstd::arithmetic::div_mod::lemma_div_is_ordered(s + p, s + l + p - 1, p);
}

/// Law: a page-aligned request with a well-formed permission byte over
/// an entirely free range is accepted by `mmap`; once the pages are
/// mapped, `munmap` of the same range is accepted; once they are
/// removed again, a second `munmap` of that range is rejected.
pub proof fn lemma_map_unmap_roundtrip(
    pre: AddressSpace,
    mapped: AddressSpace,
    unmapped: AddressSpace,
    start: usize,
    len: usize,
    port: usize,
)
    requires
        page_aligned(start),
        valid_port(port),
        0 < len,
        start + len <= usize::MAX - PAGE_SIZE,
        pre.range_free(range_lo(start), range_hi(start, len)),
        AddressSpace::maps_added(
            pre,
            mapped,
            range_lo(start),
            range_hi(start, len),
            perm_of_port(port),
        ),
        AddressSpace::maps_removed(mapped, unmapped, range_lo(start), range_hi(start, len)),
    ensures
        mmap_accepts(pre, start, len, port),
        munmap_accepts(mapped, start, len),
        !munmap_accepts(unmapped, start, len),
{
    lemma_range_nonempty(start, len);
    let lo = range_lo(start);
    assert(mapped.is_mapped(lo));
    assert(!unmapped.is_mapped(lo));
    assert(!unmapped.range_mapped(lo, range_hi(start, len)));
}

/// Law: a misaligned map request is never accepted, whatever the
/// length, permission byte, or state of the address space.  (The
/// mapping operation itself guarantees a rejected request leaves the
/// space unchanged, so an aligned retry still sees the original
/// space.)
pub proof fn lemma_misaligned_mmap_rejected(
    pre: AddressSpace,
    start: usize,
    len: usize,
    port: usize,
)
    requires
        !page_aligned(start),
    ensures
        !mmap_accepts(pre, start, len, port),
{
}

/// Law: a map request whose permission byte is zero or has any bit
/// above bit 2 set is never accepted.
pub proof fn lemma_invalid_port_rejected(pre: AddressSpace, start: usize, len: usize, port: usize)
    requires
        port == 0 || port >= 8,
    ensures
        !mmap_accepts(pre, start, len, port),
{
}

} // verus!
