//! Store-wide summaries: the page-type histogram and integrity failures of a
//! store, the AP calibration coverage, and hex listings of byte buffers.
use vstd::prelude::*;

use crate::ap::{fallback_of, learned_map, page_total, ApModel};
use crate::bytes::le_u32;
use crate::crc::crc32_of;
use crate::page::{trailer_reserved_zero, CRC_OFF, PAGE_SIZE};
use crate::store::{page_bytes, PageStore};

verus! {

// ---------------------------------------------------------------------------
// Whole-store inspection
// ---------------------------------------------------------------------------

/// The number of pages among pages `1..n` of a store image whose trailer
/// type byte (`0xFF2`) is `b`. Page 0, the superblock, is not counted.
pub open spec fn type_count(image: Seq<u8>, b: u8, n: int) -> nat
    decreases n,
{
    if n <= 1 {
        0
    } else {
        type_count(image, b, n - 1) + if page_bytes(image, n - 1)[0xFF2] == b {
            1nat
        } else {
            0nat
        }
    }
}

/// The CRC footer of page `bytes` matches the CRC-32 of its body.
pub open spec fn crc_ok(bytes: Seq<u8>) -> bool {
    le_u32(bytes, CRC_OFF as int) == crc32_of(bytes.subrange(0, CRC_OFF as int))
}

/// The pages among `1..n` whose trailer reserved regions are not zero, in
/// ascending order.
pub open spec fn trailer_failures_upto(image: Seq<u8>, n: int) -> Seq<u64>
    decreases n,
{
    if n <= 1 {
        Seq::empty()
    } else {
        let prev = trailer_failures_upto(image, n - 1);
        if trailer_reserved_zero(page_bytes(image, n - 1)) {
            prev
        } else {
            prev.push((n - 1) as u64)
        }
    }
}

/// The pages among `1..n` whose CRC footer does not match, in ascending
/// order.
pub open spec fn crc_failures_upto(image: Seq<u8>, n: int) -> Seq<u64>
    decreases n,
{
    if n <= 1 {
        Seq::empty()
    } else {
        let prev = crc_failures_upto(image, n - 1);
        if crc_ok(page_bytes(image, n - 1)) {
            prev
        } else {
            prev.push((n - 1) as u64)
        }
    }
}

/// Histogram order: more pages first, and of equally common type bytes the
/// smaller byte first.
pub open spec fn ranks_before(a: (u8, u64), b: (u8, u64)) -> bool {
    a.1 > b.1 || (a.1 == b.1 && a.0 < b.0)
}

/// `h` lists every type byte that occurs among pages `1..` of `image` once,
/// with its page count, in histogram order.
pub open spec fn is_type_histogram(h: Seq<(u8, u64)>, image: Seq<u8>) -> bool {
    let total = page_total(image);
    &&& forall|i: int|
        0 <= i < h.len() ==> #[trigger] h[i].1 == type_count(image, h[i].0, total) && h[i].1 > 0
    &&& forall|b: u8|
        type_count(image, b, total) > 0 ==> exists|i: int| 0 <= i < h.len() && #[trigger] h[i].0 == b
    &&& forall|i: int, j: int| 0 <= i < j < h.len() ==> ranks_before(h[i], h[j])
}

/// The page counts of the type bytes below `k`, summed.
pub open spec fn type_count_sum(image: Seq<u8>, n: int, k: int) -> nat
    decreases k,
{
    if k <= 0 {
        0
    } else {
        type_count_sum(image, n, k - 1) + type_count(image, (k - 1) as u8, n)
    }
}

proof fn lemma_type_count_sum_step(image: Seq<u8>, n: int, k: int)
    requires
        n >= 1,
        0 <= k <= 256,
    ensures
        type_count_sum(image, n + 1, k) == type_count_sum(image, n, k) + if page_bytes(image, n)[0xFF2]
            < k {
            1nat
        } else {
            0nat
        },
    decreases k,
{
    if k > 0 {
        lemma_type_count_sum_step(image, n, k - 1);
        assert(((k - 1) as u8) as int == k - 1);
    }
}

/// Every page but the superblock is counted under exactly one type byte:
/// the counts of all 256 type bytes over pages `1..n` add up to `n - 1`.
pub proof fn lemma_type_counts_cover_pages(image: Seq<u8>, n: int)
    requires
        n >= 1,
    ensures
        type_count_sum(image, n, 256) == n - 1,
    decreases n,
{
    if n == 1 {
        lemma_type_count_sum_zero(image, 256);
    } else {
        lemma_type_counts_cover_pages(image, n - 1);
        lemma_type_count_sum_step(image, n - 1, 256);
    }
}

proof fn lemma_type_count_sum_zero(image: Seq<u8>, k: int)
    requires
        0 <= k <= 256,
    ensures
        type_count_sum(image, 1, k) == 0,
    decreases k,
{
    if k > 0 {
        lemma_type_count_sum_zero(image, k - 1);
    }
}

/// The trailer failures among pages `1..n` are exactly the pages `q` with
/// `1 <= q < n` whose reserved trailer bytes are not all zero, each listed
/// once, in ascending order; the superblock, page 0, is never listed.
pub proof fn lemma_trailer_failures_members(image: Seq<u8>, n: int)
    requires
        n <= u64::MAX as int + 1,
    ensures
        forall|k: int|
            0 <= k < trailer_failures_upto(image, n).len() ==> 1 <= #[trigger] trailer_failures_upto(
                image,
                n,
            )[k] < n && !trailer_reserved_zero(
                page_bytes(image, trailer_failures_upto(image, n)[k] as int),
            ),
        forall|q: int|
            1 <= q < n ==> (!trailer_reserved_zero(page_bytes(image, q))
                <==> trailer_failures_upto(image, n).contains(q as u64)),
        forall|i: int, j: int|
            0 <= i < j < trailer_failures_upto(image, n).len() ==> trailer_failures_upto(image, n)[i]
                < trailer_failures_upto(image, n)[j],
    decreases n,
{
    if n > 1 {
        lemma_trailer_failures_members(image, n - 1);
        let prev = trailer_failures_upto(image, n - 1);
        let cur = trailer_failures_upto(image, n);
        assert forall|q: int| 1 <= q < n implies (!trailer_reserved_zero(page_bytes(image, q))
            <==> cur.contains(q as u64)) by {
            if q < n - 1 {
                if cur.contains(q as u64) && !prev.contains(q as u64) {
                    let k = choose|k: int| 0 <= k < cur.len() && cur[k] == q as u64;
                    assert(k == prev.len());
                }
                if prev.contains(q as u64) {
                    let k = choose|k: int| 0 <= k < prev.len() && prev[k] == q as u64;
                    assert(cur[k] == q as u64);
                }
            } else {
                if cur.contains(q as u64) && !prev.contains(q as u64) {
                } else if prev.contains(q as u64) {
                    let k = choose|k: int| 0 <= k < prev.len() && prev[k] == q as u64;
                    assert(prev[k] < n - 1);
                }
                if !trailer_reserved_zero(page_bytes(image, q)) {
                    assert(cur[cur.len() - 1] == q as u64);
                }
            }
        }
    }
}

/// The crc failures among pages `1..n` are exactly the pages `q` with
/// `1 <= q < n` whose footer does not match, each listed once, in ascending
/// order; the superblock, page 0, is never listed.
pub proof fn lemma_crc_failures_members(image: Seq<u8>, n: int)
    requires
        n <= u64::MAX as int + 1,
    ensures
        forall|k: int|
            0 <= k < crc_failures_upto(image, n).len() ==> 1 <= #[trigger] crc_failures_upto(
                image,
                n,
            )[k] < n && !crc_ok(page_bytes(image, crc_failures_upto(image, n)[k] as int)),
        forall|q: int|
            1 <= q < n ==> (!crc_ok(page_bytes(image, q)) <==> crc_failures_upto(image, n).contains(
                q as u64,
            )),
        forall|i: int, j: int|
            0 <= i < j < crc_failures_upto(image, n).len() ==> crc_failures_upto(image, n)[i]
                < crc_failures_upto(image, n)[j],
    decreases n,
{
    if n > 1 {
        lemma_crc_failures_members(image, n - 1);
        let prev = crc_failures_upto(image, n - 1);
        let cur = crc_failures_upto(image, n);
        assert forall|q: int| 1 <= q < n implies (!crc_ok(page_bytes(image, q)) <==> cur.contains(
            q as u64,
        )) by {
            if q < n - 1 {
                if cur.contains(q as u64) && !prev.contains(q as u64) {
                    let k = choose|k: int| 0 <= k < cur.len() && cur[k] == q as u64;
                    assert(k == prev.len());
                }
                if prev.contains(q as u64) {
                    let k = choose|k: int| 0 <= k < prev.len() && prev[k] == q as u64;
                    assert(cur[k] == q as u64);
                }
            } else {
                if cur.contains(q as u64) && !prev.contains(q as u64) {
                } else if prev.contains(q as u64) {
                    let k = choose|k: int| 0 <= k < prev.len() && prev[k] == q as u64;
                    assert(prev[k] < n - 1);
                }
                if !crc_ok(page_bytes(image, q)) {
                    assert(cur[cur.len() - 1] == q as u64);
                }
            }
        }
    }
}

/// The inspection does not look at the superblock: two store images of the
/// same length that differ only in page 0 give the same trailer failures,
/// crc failures and page-type counts.
pub proof fn lemma_inspection_ignores_superblock(a: Seq<u8>, b: Seq<u8>, n: int)
    requires
        a.len() == b.len(),
        n <= page_total(a),
        forall|k: int| PAGE_SIZE <= k < a.len() ==> a[k] == b[k],
    ensures
        trailer_failures_upto(a, n) == trailer_failures_upto(b, n),
        crc_failures_upto(a, n) == crc_failures_upto(b, n),
        forall|t: u8| type_count(a, t, n) == #[trigger] type_count(b, t, n),
    decreases n,
{
    if n > 1 {
        lemma_inspection_ignores_superblock(a, b, n - 1);
        let q = n - 1;
        assert(q * 4096 >= 4096 && q * 4096 + 4096 <= a.len()) by (nonlinear_arith)
            requires
                1 <= q,
                q < a.len() / 4096,
        ;
        assert(page_bytes(a, q) =~= page_bytes(b, q));
        assert forall|t: u8| type_count(a, t, n) == #[trigger] type_count(b, t, n) by {
            assert(type_count(a, t, n - 1) == type_count(b, t, n - 1));
        }
    }
}

/// Summary of every page of a store but the superblock.
#[derive(Debug, Clone)]
pub struct Inspection {
    /// `(type byte, page count)` for each type byte that occurs, most
    /// common first, ties by ascending byte.
    pub type_histogram: Vec<(u8, u64)>,
    /// Pages whose trailer reserved regions are not zero, ascending.
    pub trailer_failures: Vec<u64>,
    /// Pages whose CRC footer does not match, ascending; `None` when the
    /// CRCs were not checked.
    pub crc_failures: Option<Vec<u64>>,
}

proof fn lemma_type_count_bound(image: Seq<u8>, b: u8, n: int)
    ensures
        type_count(image, b, n) <= if n <= 1 {
            0
        } else {
            n - 1
        },
    decreases n,
{
    if n > 1 {
        lemma_type_count_bound(image, b, n - 1);
    }
}

/// Walk pages `1..` of `store`, counting page-type bytes and collecting the
/// pages that fail the trailer check and, when `verify_crc` is set, the CRC
/// check.
fn walk_pages(store: &PageStore, verify_crc: bool) -> (r: (Vec<u64>, Vec<u64>, Vec<u64>))
    ensures
        r.0@.len() == 256,
        forall|v: int| 0 <= v < 256 ==> #[trigger] r.0@[v] == type_count(store@, v as u8, page_total(store@)),
        r.1@ == trailer_failures_upto(store@, page_total(store@)),
        verify_crc ==> r.2@ == crc_failures_upto(store@, page_total(store@)),
{
    let total = store.page_count();
    let ghost image = store@;
    let mut counts: Vec<u64> = vec![0u64; 256];
    let mut trailer_bad: Vec<u64> = Vec::new();
    let mut crc_bad: Vec<u64> = Vec::new();
    let mut pn: u64 = 1;
    while pn < total
        invariant
            image == store@,
            total == page_total(image),
            1 <= pn <= total,
            counts@.len() == 256,
            forall|v: int| 0 <= v < 256 ==> #[trigger] counts@[v] == type_count(image, v as u8, pn as int),
            trailer_bad@ == trailer_failures_upto(image, pn as int),
            verify_crc ==> crc_bad@ == crc_failures_upto(image, pn as int),
        decreases total - pn,
    {
        match store.page(pn) {
            Ok(page) => {
                let t = page.trailer();
                let ty = t.page_type_raw;
                proof {
                    lemma_type_count_bound(image, ty, pn as int);
                }
                let c = counts[ty as usize];
                counts.set(ty as usize, c + 1);
                match page.verify_trailer() {
                    Ok(_) => {},
                    Err(_) => trailer_bad.push(pn),
                }
                if verify_crc {
                    match page.verify_crc() {
                        Ok(_) => {},
                        Err(_) => crc_bad.push(pn),
                    }
                }
                proof {
                    assert forall|v: int| 0 <= v < 256 implies #[trigger] counts@[v] == type_count(
                        image,
                        v as u8,
                        pn + 1,
                    ) by {
                        assert(v as u8 == ty ==> v == ty as int);
                    }
                }
            },
            Err(_) => {
                proof {
                    assert(false);
                }
            },
        }
        pn += 1;
    }
    (counts, trailer_bad, crc_bad)
}

/// Sort the type bytes with a non-zero count into histogram order.
fn histogram_order(counts: &Vec<u64>) -> (r: Vec<(u8, u64)>)
    requires
        counts@.len() == 256,
    ensures
        forall|i: int|
            0 <= i < r@.len() ==> #[trigger] r@[i].1 == counts@[r@[i].0 as int] && r@[i].1 > 0,
        forall|b: u8| counts@[b as int] > 0 ==> exists|i: int| 0 <= i < r@.len() && #[trigger] r@[i].0 == b,
        forall|i: int, j: int| 0 <= i < j < r@.len() ==> ranks_before(r@[i], r@[j]),
{
    let mut items: Vec<(u8, u64)> = Vec::new();
    let mut b: usize = 0;
    while b < 256
        invariant
            counts@.len() == 256,
            b <= 256,
            forall|i: int|
                0 <= i < items@.len() ==> #[trigger] items@[i].1 == counts@[items@[i].0 as int]
                    && items@[i].1 > 0 && items@[i].0 < b,
            forall|c: u8|
                c < b && counts@[c as int] > 0 ==> exists|i: int|
                    0 <= i < items@.len() && #[trigger] items@[i].0 == c,
            forall|i: int, j: int| 0 <= i < j < items@.len() ==> ranks_before(items@[i], items@[j]),
        decreases 256 - b,
    {
        let n = counts[b];
        if n > 0 {
            let x = (b as u8, n);
            let mut i: usize = 0;
            while i < items.len() && items[i].1 >= n
                invariant
                    i <= items@.len(),
                    forall|k: int| 0 <= k < i ==> items@[k].1 >= n,
                decreases items@.len() - i,
            {
                i += 1;
            }
            let ghost old_items = items@;
            items.insert(i, x);
            proof {
                let s = items@;
                assert(s == old_items.insert(i as int, x));
                assert forall|p: int, q: int| 0 <= p < q < s.len() implies ranks_before(
                    s[p],
                    s[q],
                ) by {
                    if q < i {
                        assert(s[p] == old_items[p] && s[q] == old_items[q]);
                    } else if q == i {
                        assert(s[p] == old_items[p]);
                    } else if p < i {
                        assert(s[p] == old_items[p] && s[q] == old_items[q - 1]);
                    } else if p == i {
                        assert(s[q] == old_items[q - 1]);
                        assert(ranks_before(x, old_items[i as int]));
                        if q - 1 > i {
                            assert(ranks_before(old_items[i as int], old_items[q - 1]));
                        }
                    } else {
                        assert(s[p] == old_items[p - 1] && s[q] == old_items[q - 1]);
                    }
                }
                assert forall|c: u8| c < b + 1 && counts@[c as int] > 0 implies exists|k: int|
                    0 <= k < s.len() && #[trigger] s[k].0 == c by {
                    if c == b {
                        assert(s[i as int].0 == c);
                    } else {
                        let k = choose|k: int| 0 <= k < old_items.len() && #[trigger] old_items[k].0 == c;
                        if k < i {
                            assert(s[k].0 == c);
                        } else {
                            assert(s[k + 1].0 == c);
                        }
                    }
                }
            }
        }
        b += 1;
    }
    items
}

/// Summarise pages `1..` of `store` (page 0 is the superblock): the
/// page-type histogram, the pages whose trailer check fails and, when
/// `verify_crc` is set, the pages whose CRC check fails.
pub fn inspect(store: &PageStore, verify_crc: bool) -> (r: Inspection)
    ensures
        is_type_histogram(r.type_histogram@, store@),
        r.trailer_failures@ == trailer_failures_upto(store@, page_total(store@)),
        verify_crc ==> (r.crc_failures matches Some(v) && v@ == crc_failures_upto(
            store@,
            page_total(store@),
        )),
        !verify_crc ==> r.crc_failures is None,
        forall|k: int|
            0 <= k < r.trailer_failures@.len() ==> 1 <= #[trigger] r.trailer_failures@[k]
                < page_total(store@),
        forall|q: int|
            1 <= q < page_total(store@) ==> (!trailer_reserved_zero(page_bytes(store@, q)) <==> r.trailer_failures@.contains(q as u64)),
        verify_crc ==> forall|q: int|
            1 <= q < page_total(store@) ==> (!crc_ok(page_bytes(store@, q)) <==> (r.crc_failures matches Some(v) && v@.contains(q as u64))),
        verify_crc ==> (r.crc_failures matches Some(v) && forall|k: int|
            0 <= k < v@.len() ==> 1 <= #[trigger] v@[k] < page_total(store@)),
{
    let total = store.page_count();
    proof {
        assert(total == page_total(store@));
        lemma_trailer_failures_members(store@, page_total(store@));
        lemma_crc_failures_members(store@, page_total(store@));
    }
    let (counts, trailer_failures, crc_bad) = walk_pages(store, verify_crc);
    let type_histogram = histogram_order(&counts);
    proof {
        let image = store@;
        let total = page_total(image);
        let h = type_histogram@;
        assert forall|i: int| 0 <= i < h.len() implies #[trigger] h[i].1 == type_count(
            image,
            h[i].0,
            total,
        ) && h[i].1 > 0 by {
            assert(counts@[h[i].0 as int] == type_count(image, (h[i].0 as int) as u8, total));
        }
        assert forall|b: u8| type_count(image, b, total) > 0 implies exists|i: int|
            0 <= i < h.len() && #[trigger] h[i].0 == b by {
            assert(counts@[b as int] == type_count(image, (b as int) as u8, total));
        }
    }
    let crc_failures = if verify_crc {
        Some(crc_bad)
    } else {
        None
    };
    Inspection { type_histogram, trailer_failures, crc_failures }
}

// ---------------------------------------------------------------------------
// AP calibration coverage
// ---------------------------------------------------------------------------

/// The number of 16-page blocks that a store of `pages` pages spans.
pub open spec fn block_total(pages: int) -> int {
    (pages + 15) / 16
}

/// Summary of the AP calibration that a store teaches.
#[derive(Debug, Clone, Copy)]
pub struct ApInfo {
    /// Blocks whose `bv` was learned from a pure-AP page.
    pub learned_blocks: usize,
    /// Blocks the store spans (the last one may be partial).
    pub total_blocks: u64,
    /// The `bv` used for block 0.
    pub bv_block0: u8,
}

/// Learn the AP model of `store` and summarise it: learned blocks, total
/// blocks and the `bv` of block 0.
pub fn ap_info(store: &PageStore) -> (r: ApInfo)
    ensures
        r.learned_blocks == learned_map(store@).len(),
        r.total_blocks == block_total(page_total(store@)),
        r.bv_block0 == if learned_map(store@).contains_key(0) {
            learned_map(store@)[0]
        } else {
            fallback_of(learned_map(store@))
        },
{
    let model = ApModel::learn(store);
    let total = store.page_count();
    let _len = store.size_bytes();
    proof {
        assert(total * 4096 <= store@.len()) by (nonlinear_arith)
            requires
                total == store@.len() / 4096,
        ;
    }
    ApInfo {
        learned_blocks: model.learned_block_count(),
        total_blocks: (total + 15) / 16,
        bv_block0: model.bv_at(0),
    }
}

// ---------------------------------------------------------------------------
// Hex listings
// ---------------------------------------------------------------------------

/// The byte shown for `b` in a text column: `b` itself if it is printable
/// ASCII (`0x20..0x7F`), `.` otherwise.
pub open spec fn shown_byte(b: u8) -> u8 {
    if 0x20 <= b < 0x7F {
        b
    } else {
        0x2E
    }
}

/// The text column of the bytes `s`.
pub open spec fn shown_text(s: Seq<u8>) -> Seq<u8> {
    s.map_values(|b: u8| shown_byte(b))
}

/// The byte shown for `b` in a text column (see [`shown_byte`]).
pub fn printable(b: u8) -> (r: u8)
    ensures
        r == shown_byte(b),
{
    if 0x20 <= b && b < 0x7F {
        b
    } else {
        0x2E
    }
}

/// One row of a hex listing: up to 16 bytes and their text column.
#[derive(Debug, Clone)]
pub struct HexRow {
    /// Offset of the row's first byte.
    pub offset: usize,
    /// The row's bytes (16, or fewer in the last row).
    pub bytes: Vec<u8>,
    /// [`printable`] applied to each byte of the row.
    pub text: Vec<u8>,
}

/// The bytes of row `r` of a hex listing of `buf`.
pub open spec fn hex_row_bytes(buf: Seq<u8>, r: int) -> Seq<u8> {
    buf.subrange(16 * r, if 16 * r + 16 <= buf.len() {
        16 * r + 16
    } else {
        buf.len() as int
    })
}

/// `row` is row `r` of a hex listing of `buf` whose first byte is at offset
/// `base`.
pub open spec fn is_hex_row(row: HexRow, buf: Seq<u8>, base: int, r: int) -> bool {
    &&& row.offset == base + 16 * r
    &&& row.bytes@ == hex_row_bytes(buf, r)
    &&& row.text@ == shown_text(row.bytes@)
}

/// Split `buf` into rows of 16 bytes for a hex listing whose first byte is
/// at offset `base`. The offset of every row must fit in a `usize`.
pub fn hexdump(buf: &[u8], base: usize) -> (rows: Vec<HexRow>)
    requires
        buf@.len() == 0 || base + 16 * ((buf@.len() - 1) / 16) <= usize::MAX,
    ensures
        rows@.len() == (buf@.len() + 15) / 16,
        forall|r: int|
            0 <= r < rows@.len() ==> is_hex_row(#[trigger] rows@[r], buf@, base as int, r),
{
    let mut rows: Vec<HexRow> = Vec::new();
    let mut start: usize = 0;
    while start < buf.len()
        invariant
            buf@.len() == 0 || base + 16 * ((buf@.len() - 1) / 16) <= usize::MAX,
            start <= buf@.len(),
            start % 16 == 0 || start == buf@.len(),
            rows@.len() == (start + 15) / 16,
            forall|r: int|
                0 <= r < rows@.len() ==> is_hex_row(#[trigger] rows@[r], buf@, base as int, r),
        decreases buf@.len() - start,
    {
        let end = if buf.len() - start >= 16 {
            start + 16
        } else {
            buf.len()
        };
        let mut bytes: Vec<u8> = Vec::new();
        let mut text: Vec<u8> = Vec::new();
        let mut k: usize = start;
        while k < end
            invariant
                start <= k <= end,
                end <= buf@.len(),
                bytes@ == buf@.subrange(start as int, k as int),
                text@ == shown_text(bytes@),
            decreases end - k,
        {
            let b = buf[k];
            bytes.push(b);
            text.push(printable(b));
            proof {
                assert(buf@.subrange(start as int, k + 1) =~= buf@.subrange(start as int, k as int).push(b));
            }
            assert(text@ =~= shown_text(bytes@));
            k += 1;
        }
        let ghost r = rows@.len() as int;
        assert(start == 16 * r);
        assert(start <= 16 * ((buf@.len() - 1) / 16)) by (nonlinear_arith)
            requires
                start % 16 == 0,
                start < buf@.len(),
        ;
        rows.push(HexRow { offset: base + start, bytes, text });
        start = end;
    }
    rows
}

} // verus!
