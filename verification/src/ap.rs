//! Additive-progression (AP) fill removal for obfuscated page stores.
//!
//! Some SA17-derived stores (QuickBooks `.QBW` files) add a per-sector
//! keystream to every page body:
//!
//! ```text
//! stored[i] = (fill(pn, si, i) + plaintext[i]) mod 256
//! fill(pn, si, i) = (base(pn, si) + i * step(pn, si)) mod 256
//! base(pn, si)    = (bv(pn / 16) + pn + si - 4 * ((pn % 16) / 2)) mod 256
//! ```
//!
//! where `pn` is the page number, `si` the 512-byte sector within the page,
//! `i` the byte within the sector and `bv` a calibration byte learned from
//! the file. `step` is recovered per sector as the step whose removal leaves
//! the most uniform plaintext.
//!
//! `bv` is learned from pages whose plaintext is almost entirely zero, the
//! "pure AP" page types `'@'`, `'C'`, `'H'` and `'M'`: their stored bytes are
//! the fill itself. `bv` is constant per 16-page block on most files
//! but not on every file, so [`ApModel::deobfuscate_with_store`]
//! resolves it per page.
use std::collections::HashMap;

use vstd::prelude::*;

use crate::fill::{
    ap_base, ap_base_spec, argmax_last, base_keys, best_step, byte, diff_keys, dominant_step,
    dominant_step_spec,
    fill_sector, hist_of, histogram, hits_spec, ints, is_last_argmax, key_count, last_argmax,
    lemma_byte_inner, lemma_byte_shift, lemma_count_all, lemma_count_miss, lemma_key_count_bound,
    lemma_last_argmax, lemma_pure_dominant_step, lemma_pure_hits,
    lemma_constant_best_step, lemma_pair_count, lemma_refill_key, lemma_sparse_best_step,
    lemma_steps_apart, repeated,
    lemma_pure_recover_base, lemma_unfill_fill, plain_keys, recover_base, recover_base_spec,
    recover_step_peak, sector_hits, unfill_byte, zeros,
};
use crate::page::PAGE_SIZE;
use crate::store::{page_bytes, PageStore};

use vstd::arithmetic::div_mod::lemma_fundamental_div_mod;

verus! {

broadcast use vstd::std_specs::hash::group_hash_axioms;

/// Size of a single AP sector in bytes.
pub const SECTOR_SIZE: usize = 512;

/// Number of sectors per page (8 x 512 = 4096 bytes).
pub const SECTORS_PER_PAGE: usize = 8;

/// Byte offset at which the page trailer begins; the trailer is not filled.
pub const TRAILER_START: usize = 0xFF0;

// ---------------------------------------------------------------------------
// Specification
// ---------------------------------------------------------------------------

/// Page types whose bodies are dominated by AP fill: `'@'`, `'C'`, `'H'`,
/// `'M'`.
pub open spec fn is_pure_type(t: u8) -> bool {
    t == 0x40 || t == 0x43 || t == 0x48 || t == 0x4D
}

/// First byte of sector `si`.
pub open spec fn sector_start(si: int) -> int {
    si * 512
}

/// End of the data of sector `si`: the last sector stops at the trailer.
pub open spec fn sector_end(si: int) -> int {
    if si == 7 {
        TRAILER_START as int
    } else {
        si * 512 + 512
    }
}

/// The data bytes of sector `si` of a page.
pub open spec fn sector(bytes: Seq<u8>, si: int) -> Seq<u8> {
    bytes.subrange(sector_start(si), sector_end(si))
}

/// `4 * floor((pn % 16) / 2)`, the per-page correction of the fill base.
pub open spec fn base_bias(pn: int) -> int {
    4 * ((pn % 16) / 2)
}

/// The `bv` that sector `si` of page `pn` votes for: the sector's fill is
/// recovered from its dominant step and base, and the sector votes only if
/// that fill matches every byte of it.
pub open spec fn sector_vote(bytes: Seq<u8>, pn: int, si: int) -> Option<u8> {
    let sec = sector(bytes, si);
    let st = dominant_step_spec(sec);
    let b = recover_base_spec(sec, st);
    if hits_spec(sec, b, st) == sec.len() {
        Some(byte(b - pn - si + base_bias(pn)))
    } else {
        None
    }
}

/// Number of sectors below `n` of page `pn` that vote for `v`.
pub open spec fn page_votes(bytes: Seq<u8>, pn: int, v: int, n: int) -> nat
    decreases n,
{
    if n <= 0 {
        0
    } else {
        page_votes(bytes, pn, v, n - 1) + if sector_vote(bytes, pn, n - 1) == Some(v as u8) && 0
            <= v < 256 {
            1nat
        } else {
            0nat
        }
    }
}

/// The votes of every sector of page `pn`, by candidate `bv`.
pub open spec fn page_vote_hist(bytes: Seq<u8>, pn: int) -> Seq<int> {
    Seq::new(256, |v: int| page_votes(bytes, pn, v, 8) as int)
}

/// Some sector of page `pn` votes.
pub open spec fn page_has_vote(bytes: Seq<u8>, pn: int) -> bool {
    exists|si: int| 0 <= si < 8 && #[trigger] sector_vote(bytes, pn, si) is Some
}

/// The `bv` learned from page `pn` alone: `None` unless the page is of a
/// pure-AP type and some sector votes; otherwise the most voted value (the
/// greatest of equally voted ones).
pub open spec fn page_bv(bytes: Seq<u8>, pn: int, ptype: u8) -> Option<u8> {
    if is_pure_type(ptype) && page_has_vote(bytes, pn) {
        Some(last_argmax(page_vote_hist(bytes, pn)) as u8)
    } else {
        None
    }
}


// ---------------------------------------------------------------------------
// Per-page calibration
// ---------------------------------------------------------------------------

/// Offsets of the data of sector `si`.
fn sector_bounds(si: usize) -> (r: (usize, usize))
    requires
        si < SECTORS_PER_PAGE,
    ensures
        r.0 == sector_start(si as int),
        r.1 == sector_end(si as int),
        r.0 < r.1 <= TRAILER_START,
{
    let off = si * SECTOR_SIZE;
    let data_end = if si + 1 == SECTORS_PER_PAGE {
        TRAILER_START
    } else {
        off + SECTOR_SIZE
    };
    (off, data_end)
}

/// The vote of sector `si` of page `pn` (see [`sector_vote`]).
fn vote_of_sector(bytes: &[u8], pn: u64, si: usize) -> (r: Option<u8>)
    requires
        bytes@.len() >= TRAILER_START,
        si < SECTORS_PER_PAGE,
    ensures
        r == sector_vote(bytes@, pn as int, si as int),
{
    let (off, data_end) = sector_bounds(si);
    let sec = &bytes[off..data_end];
    let step = dominant_step(sec);
    let base = recover_base(sec, step);
    if sector_hits(sec, base, step) < sec.len() {
        return None;
    }
    proof {
        lemma_key_count_bound(plain_keys(sec@, base as int, step as int), 0, sec@.len() as int);
    }
    let bias = ((pn % 16) as u32) / 2 * 4;
    let x = base as u32 + 512 - (pn % 256) as u32 - si as u32 + bias;
    proof {
        let y = base - pn - si + base_bias(pn as int);
        lemma_fundamental_div_mod(pn as int, 256);
        assert(x == y + 256 * (2 + pn / 256));
        lemma_byte_shift(y, 2 + pn / 256);
    }
    Some((x % 256) as u8)
}

/// Votes of the sectors of page `pn`, by candidate `bv`, and whether any
/// sector voted.
fn page_vote_counts(bytes: &[u8], pn: u64) -> (r: (Vec<u32>, bool))
    requires
        bytes@.len() >= TRAILER_START,
    ensures
        ints(r.0@) == page_vote_hist(bytes@, pn as int),
        r.0@.len() == 256,
        r.1 == page_has_vote(bytes@, pn as int),
{
    let mut votes: Vec<u32> = vec![0u32; 256];
    let mut any = false;
    let mut si: usize = 0;
    while si < SECTORS_PER_PAGE
        invariant
            bytes@.len() >= TRAILER_START,
            si <= SECTORS_PER_PAGE,
            votes@.len() == 256,
            forall|v: int| 0 <= v < 256 ==> #[trigger] votes@[v] == page_votes(bytes@, pn as int, v, si as int),
            forall|v: int| 0 <= v < 256 ==> #[trigger] page_votes(bytes@, pn as int, v, si as int) <= si,
            any == exists|k: int| 0 <= k < si && #[trigger] sector_vote(bytes@, pn as int, k) is Some,
        decreases SECTORS_PER_PAGE - si,
    {
        let vote = vote_of_sector(bytes, pn, si);
        match vote {
            Some(bv) => {
                let k = bv as usize;
                votes.set(k, votes[k] + 1);
                any = true;
            },
            None => {},
        }
        proof {
            assert forall|v: int| 0 <= v < 256 implies #[trigger] page_votes(bytes@, pn as int, v, si + 1) <= si + 1 by {
                assert(page_votes(bytes@, pn as int, v, si as int) <= si);
            }
        }
        si += 1;
    }
    assert(ints(votes@) =~= page_vote_hist(bytes@, pn as int));
    (votes, any)
}

/// Learn `bv` directly from a single pure-AP page, scoped to exactly that
/// page.
///
/// Returns `None` if `ptype` is not a pure-AP page type or no sector of the
/// page is an exact AP fill; otherwise the value that most sectors vote for.
/// The bytes are read only for a pure-AP type, which needs the page's data
/// region (`0xFF0` bytes).
pub fn learn_bv_for_page(bytes: &[u8], pn: u64, ptype: u8) -> (r: Option<u8>)
    requires
        is_pure_type(ptype) ==> bytes@.len() >= TRAILER_START,
    ensures
        r == page_bv(bytes@, pn as int, ptype),
{
    if !(ptype == 0x40 || ptype == 0x43 || ptype == 0x48 || ptype == 0x4D) {
        return None;
    }
    let (votes, any) = page_vote_counts(bytes, pn);
    if !any {
        return None;
    }
    let r = argmax_last(&votes);
    proof {
        lemma_last_argmax(page_vote_hist(bytes@, pn as int), r as int);
    }
    Some(r as u8)
}


// ---------------------------------------------------------------------------
// Brute-force calibration
// ---------------------------------------------------------------------------

/// The 512-byte window of sector `si` (sectors 0 to 6 only are scored).
pub open spec fn full_sector(bytes: Seq<u8>, si: int) -> Seq<u8> {
    bytes.subrange(si * 512, si * 512 + 512)
}

/// The largest number of bytes of `sec` that removing the fill
/// `(off + bv, s)` turns into zero, over the steps `s < k`: equivalently the
/// largest count of `(sec[i] - off - i * s) mod 256 == bv`.
pub open spec fn stepmax(sec: Seq<u8>, off: int, bv: int, k: int) -> nat
    decreases k,
{
    if k <= 0 {
        0
    } else {
        let prev = stepmax(sec, off, bv, k - 1);
        let c = key_count(plain_keys(sec, off, k - 1), bv, sec.len() as int);
        if c > prev {
            c
        } else {
            prev
        }
    }
}

/// Score of candidate `bv` summed over sectors `si < n` of page `pn`.
pub open spec fn page_score_upto(bytes: Seq<u8>, pn: int, bv: int, n: int) -> nat
    decreases n,
{
    if n <= 0 {
        0
    } else {
        page_score_upto(bytes, pn, bv, n - 1) + stepmax(
            full_sector(bytes, n - 1),
            ap_base_spec(pn, n - 1, 0) as int,
            bv,
            256,
        )
    }
}

/// Score of candidate `bv` for page `pn`: for each of the sectors 0 to 6,
/// the best count over all steps of bytes that the fill of `bv` explains.
pub open spec fn page_score(bytes: Seq<u8>, pn: int, bv: int) -> nat {
    page_score_upto(bytes, pn, bv, 7)
}

proof fn lemma_stepmax_bound(sec: Seq<u8>, off: int, bv: int, k: int)
    ensures
        stepmax(sec, off, bv, k) <= sec.len(),
    decreases k,
{
    if k > 0 {
        lemma_stepmax_bound(sec, off, bv, k - 1);
        lemma_key_count_bound(plain_keys(sec, off, k - 1), bv, sec.len() as int);
    }
}

proof fn lemma_page_score_bound(bytes: Seq<u8>, pn: int, bv: int, n: int)
    requires
        0 <= n <= 7,
        bytes.len() >= 3584,
    ensures
        page_score_upto(bytes, pn, bv, n) <= 512 * n,
    decreases n,
{
    if n > 0 {
        lemma_page_score_bound(bytes, pn, bv, n - 1);
        lemma_stepmax_bound(full_sector(bytes, n - 1), ap_base_spec(pn, n - 1, 0) as int, bv, 256);
    }
}

/// The largest bound on a score accumulator before adding a page's scores.
const SCORE_CAP: u32 = 0xFFFF_0000;

/// Adds to `bv_score[bv]` the score of every candidate `bv` for page `pn`
/// (see [`page_score`]).
fn score_bv_candidates(bytes: &[u8], pn: u64, bv_score: &mut Vec<u32>)
    requires
        bytes@.len() >= 3584,
        old(bv_score)@.len() == 256,
        forall|v: int| 0 <= v < 256 ==> #[trigger] old(bv_score)@[v] <= SCORE_CAP,
    ensures
        final(bv_score)@.len() == 256,
        forall|v: int|
            0 <= v < 256 ==> #[trigger] final(bv_score)@[v] == old(bv_score)@[v] + page_score(
                bytes@,
                pn as int,
                v,
            ),
{
    let mut si: usize = 0;
    while si < 7
        invariant
            bytes@.len() >= 3584,
            si <= 7,
            bv_score@.len() == 256,
            forall|v: int|
                0 <= v < 256 ==> #[trigger] bv_score@[v] == old(bv_score)@[v] + page_score_upto(
                    bytes@,
                    pn as int,
                    v,
                    si as int,
                ),
            forall|v: int| 0 <= v < 256 ==> #[trigger] old(bv_score)@[v] <= SCORE_CAP,
        decreases 7 - si,
    {
        let off = si * SECTOR_SIZE;
        let sec = &bytes[off..off + SECTOR_SIZE];
        let offset = ap_base(pn, si, 0);
        let mut step_bv_max: Vec<u32> = vec![0u32; 256];
        let mut s: u32 = 0;
        while s < 256
            invariant
                s <= 256,
                sec@.len() == 512,
                step_bv_max@.len() == 256,
                forall|v: int|
                    0 <= v < 256 ==> #[trigger] step_bv_max@[v] == stepmax(
                        sec@,
                        offset as int,
                        v,
                        s as int,
                    ),
            decreases 256 - s,
        {
            let keys = crate::fill::plain_keys_exec(sec, offset, s as u8);
            let h = histogram(&keys);
            let mut bv: usize = 0;
            while bv < 256
                invariant
                    bv <= 256,
                    s < 256,
                    sec@.len() == 512,
                    h@.len() == 256,
                    ints(h@) == hist_of(plain_keys(sec@, offset as int, s as int)),
                    step_bv_max@.len() == 256,
                    forall|v: int|
                        0 <= v < 256 ==> #[trigger] step_bv_max@[v] == if v < bv {
                            stepmax(sec@, offset as int, v, s + 1)
                        } else {
                            stepmax(sec@, offset as int, v, s as int)
                        },
                decreases 256 - bv,
            {
                proof {
                    assert(ints(h@)[bv as int] == h@[bv as int] as int);
                }
                if h[bv] > step_bv_max[bv] {
                    step_bv_max.set(bv, h[bv]);
                }
                bv += 1;
            }
            s += 1;
        }
        let mut bv: usize = 0;
        while bv < 256
            invariant
                bytes@.len() >= 3584,
                si < 7,
                bv <= 256,
                sec@ == full_sector(bytes@, si as int),
                offset == ap_base_spec(pn as int, si as int, 0),
                bv_score@.len() == 256,
                step_bv_max@.len() == 256,
                forall|v: int|
                    0 <= v < 256 ==> #[trigger] step_bv_max@[v] == stepmax(
                        sec@,
                        offset as int,
                        v,
                        256,
                    ),
                forall|v: int|
                    0 <= v < 256 ==> #[trigger] bv_score@[v] == old(bv_score)@[v] + if v < bv {
                        page_score_upto(bytes@, pn as int, v, si + 1)
                    } else {
                        page_score_upto(bytes@, pn as int, v, si as int)
                    },
                forall|v: int| 0 <= v < 256 ==> #[trigger] old(bv_score)@[v] <= SCORE_CAP,
            decreases 256 - bv,
        {
            proof {
                lemma_page_score_bound(bytes@, pn as int, bv as int, si + 1);
            }
            let nv = bv_score[bv] + step_bv_max[bv];
            bv_score.set(bv, nv);
            bv += 1;
        }
        si += 1;
    }
}


// ---------------------------------------------------------------------------
// Removing the fill from a page
// ---------------------------------------------------------------------------

/// Byte `k` of page `pn` with the fill of calibration byte `bv` removed.
/// In each sector the step is the one [`recover_step_peak`] finds under the
/// sector's base; the trailer `0xFF0..0x1000` is kept as it is.
pub open spec fn deob_byte(raw: Seq<u8>, pn: int, bv: int, k: int) -> u8 {
    if k < TRAILER_START {
        let si = k / 512;
        let sec = sector(raw, si);
        let base = ap_base_spec(pn, si, bv) as int;
        let st = best_step(sec, base).0;
        plain_keys(sec, base, st)[k - sector_start(si)]
    } else {
        raw[k]
    }
}

/// Page `pn` with the fill of calibration byte `bv` removed.
pub open spec fn deobfuscate_spec(raw: Seq<u8>, pn: int, bv: int) -> Seq<u8> {
    Seq::new(PAGE_SIZE as nat, |k: int| deob_byte(raw, pn, bv, k))
}

proof fn lemma_div_512(k: int, si: int)
    requires
        si * 512 <= k < si * 512 + 512,
    ensures
        k / 512 == si,
{
    assert(k / 512 == si) by (nonlinear_arith)
        requires
            si * 512 <= k < si * 512 + 512,
    ;
}

/// Page `pn` of `raw` with the fill of calibration byte `bv` removed.
fn deobfuscate_page(raw: &[u8], pn: u64, bv: u8) -> (out: Vec<u8>)
    requires
        raw@.len() >= PAGE_SIZE,
    ensures
        out@ == deobfuscate_spec(raw@, pn as int, bv as int),
{
    let mut out: Vec<u8> = vec![0u8; PAGE_SIZE];
    let mut si: usize = 0;
    while si < SECTORS_PER_PAGE
        invariant
            raw@.len() >= PAGE_SIZE,
            si <= SECTORS_PER_PAGE,
            out@.len() == PAGE_SIZE,
            forall|k: int|
                0 <= k < sector_start(si as int) && k < TRAILER_START ==> #[trigger] out@[k]
                    == deob_byte(raw@, pn as int, bv as int, k),
        decreases SECTORS_PER_PAGE - si,
    {
        let (off, data_end) = sector_bounds(si);
        let sec = &raw[off..data_end];
        let base = ap_base(pn, si, bv);
        let (step, _) = recover_step_peak(sec, base);
        let mut k: usize = off;
        while k < data_end
            invariant
                raw@.len() >= PAGE_SIZE,
                si < SECTORS_PER_PAGE,
                off == sector_start(si as int),
                data_end == sector_end(si as int),
                off <= k <= data_end <= TRAILER_START,
                sec@ == sector(raw@, si as int),
                base == ap_base_spec(pn as int, si as int, bv as int),
                step as int == best_step(sec@, base as int).0,
                out@.len() == PAGE_SIZE,
                forall|j: int|
                    0 <= j < k && j < TRAILER_START ==> #[trigger] out@[j] == deob_byte(
                        raw@,
                        pn as int,
                        bv as int,
                        j,
                    ),
            decreases data_end - k,
        {
            let v = unfill_byte(raw[k], base, k - off, step);
            proof {
                lemma_div_512(k as int, si as int);
                assert(sec@[k - off] == raw@[k as int]);
            }
            out.set(k, v);
            k += 1;
        }
        si += 1;
    }
    let mut k: usize = TRAILER_START;
    while k < PAGE_SIZE
        invariant
            raw@.len() >= PAGE_SIZE,
            TRAILER_START <= k <= PAGE_SIZE,
            out@.len() == PAGE_SIZE,
            forall|j: int| 0 <= j < k ==> #[trigger] out@[j] == deob_byte(raw@, pn as int, bv as int, j),
        decreases PAGE_SIZE - k,
    {
        out.set(k, raw[k]);
        k += 1;
    }
    assert(out@ =~= deobfuscate_spec(raw@, pn as int, bv as int));
    out
}


// ---------------------------------------------------------------------------
// The learned model
// ---------------------------------------------------------------------------

/// The votes that page `pn` of a store image casts for `v`: those of its
/// sectors if it is a pure-AP page, none otherwise.
pub open spec fn page_contrib(image: Seq<u8>, pn: int, v: int) -> nat {
    let bytes = page_bytes(image, pn);
    if is_pure_type(bytes[0xFF2]) {
        page_votes(bytes, pn, v, 8)
    } else {
        0
    }
}

/// Votes for `v` cast by the first `j` pages of block `bi` of a store of
/// `total` pages.
pub open spec fn block_votes(image: Seq<u8>, total: int, bi: int, v: int, j: int) -> nat
    decreases j,
{
    if j <= 0 {
        0
    } else {
        block_votes(image, total, bi, v, j - 1) + if 16 * bi + j - 1 < total {
            page_contrib(image, 16 * bi + j - 1, v)
        } else {
            0
        }
    }
}

/// The votes of block `bi`, by candidate `bv`.
pub open spec fn block_hist(image: Seq<u8>, total: int, bi: int) -> Seq<int> {
    Seq::new(256, |v: int| block_votes(image, total, bi, v, 16) as int)
}

/// Some pure-AP page among the first `j` pages of block `bi` has a voting
/// sector.
pub open spec fn block_has_vote_upto(image: Seq<u8>, total: int, bi: int, j: int) -> bool {
    exists|t: int|
        0 <= t < j && 16 * bi + t < total && is_pure_type(page_bytes(image, 16 * bi + t)[0xFF2])
            && #[trigger] page_has_vote(page_bytes(image, 16 * bi + t), 16 * bi + t)
}

/// Some pure-AP page of block `bi` has a voting sector.
pub open spec fn block_has_vote(image: Seq<u8>, total: int, bi: int) -> bool {
    block_has_vote_upto(image, total, bi, 16)
}

/// The number of pages of a store image.
pub open spec fn page_total(image: Seq<u8>) -> int {
    image.len() as int / PAGE_SIZE as int
}

/// The blocks below `n` whose `bv` is learned, each mapped to the value most
/// voted for in it (the greatest of equally voted ones).
pub open spec fn learned_upto(image: Seq<u8>, n: int) -> Map<u64, u8> {
    let total = page_total(image);
    Map::new(
        |bi: u64| bi < n && 16 * bi < total && block_has_vote(image, total, bi as int),
        |bi: u64| last_argmax(block_hist(image, total, bi as int)) as u8,
    )
}

/// The calibration learned from a store image: every block that holds a
/// voting pure-AP page.
pub open spec fn learned_map(image: Seq<u8>) -> Map<u64, u8> {
    learned_upto(image, page_total(image))
}

/// `b` is the lowest block of the map.
pub open spec fn is_lowest_key(m: Map<u64, u8>, b: u64) -> bool {
    &&& m.contains_key(b)
    &&& forall|c: u64| #[trigger] m.contains_key(c) ==> b <= c
}

/// The fallback `bv`: that of the lowest learned block (block 0 if it is
/// learned), or 0 if no block is learned.
pub open spec fn fallback_of(m: Map<u64, u8>) -> u8 {
    if exists|b: u64| is_lowest_key(m, b) {
        m[choose|b: u64| is_lowest_key(m, b)]
    } else {
        0
    }
}

/// AP deobfuscation model for a single page-store file.
///
/// Build one with [`ApModel::learn`], then call [`ApModel::deobfuscate`] or
/// [`ApModel::deobfuscate_with_store`] to recover the plaintext of a page.
#[derive(Debug, Clone)]
pub struct ApModel {
    /// Learned `bv` values, keyed by block index (`pn / 16`).
    bv_map: HashMap<u64, u8>,
    /// `bv` to use when a block has no learned value.
    bv0: u8,
}

impl ApModel {
    /// The learned `bv` of each block.
    pub closed spec fn learned(&self) -> Map<u64, u8> {
        self.bv_map@
    }

    /// The `bv` used for blocks that were not learned.
    pub closed spec fn fallback(&self) -> u8 {
        self.bv0
    }

    /// The `bv` used for block `bi`.
    pub open spec fn spec_bv_at(&self, bi: u64) -> u8 {
        if self.learned().contains_key(bi) {
            self.learned()[bi]
        } else {
            self.fallback()
        }
    }
}

/// The scores of every candidate `bv` for page `pn`.
pub open spec fn page_score_hist(bytes: Seq<u8>, pn: int) -> Seq<int> {
    Seq::new(256, |v: int| page_score(bytes, pn, v) as int)
}

/// The `bv` recovered for page `pn` of a store image: the candidate of
/// highest score (the greatest of equally scored ones), or the fallback for
/// a page beyond the store.
pub open spec fn page_recovered_bv(image: Seq<u8>, pn: int, fallback: u8) -> u8 {
    if 0 <= pn < page_total(image) {
        last_argmax(page_score_hist(page_bytes(image, pn), pn)) as u8
    } else {
        fallback
    }
}

/// Score of candidate `bv` summed over the first `t` pages of block `bi`
/// that lie in the store.
pub open spec fn block_score(image: Seq<u8>, bi: int, v: int, t: int) -> nat
    decreases t,
{
    if t <= 0 {
        0
    } else {
        block_score(image, bi, v, t - 1) + if 16 * bi + t - 1 < page_total(image) {
            page_score(page_bytes(image, 16 * bi + t - 1), 16 * bi + t - 1, v)
        } else {
            0
        }
    }
}

/// The scores of every candidate `bv` over the first three pages of block
/// `bi`.
pub open spec fn block_score_hist(image: Seq<u8>, bi: int) -> Seq<int> {
    Seq::new(256, |v: int| block_score(image, bi, v, 3) as int)
}

/// The `bv` recovered for block `bi` of a store image: the candidate of
/// highest score over its first three pages (the greatest of equally scored
/// ones), or the fallback for a block beyond the store.
pub open spec fn block_recovered_bv(image: Seq<u8>, bi: int, fallback: u8) -> u8 {
    if 0 <= 16 * bi < page_total(image) {
        last_argmax(block_score_hist(image, bi)) as u8
    } else {
        fallback
    }
}

proof fn lemma_page_votes_bound(bytes: Seq<u8>, pn: int, v: int, n: int)
    requires
        0 <= n,
    ensures
        page_votes(bytes, pn, v, n) <= n,
    decreases n,
{
    if n > 0 {
        lemma_page_votes_bound(bytes, pn, v, n - 1);
    }
}

/// Block `bi` has a vote among its first `j + 1` pages exactly when it has
/// one among the first `j` or page `j` is a pure-AP page with a vote.
proof fn lemma_block_has_vote_next(image: Seq<u8>, total: int, bi: int, j: int)
    requires
        0 <= j,
    ensures
        block_has_vote_upto(image, total, bi, j + 1) == (block_has_vote_upto(image, total, bi, j)
            || (16 * bi + j < total && is_pure_type(page_bytes(image, 16 * bi + j)[0xFF2])
            && page_has_vote(page_bytes(image, 16 * bi + j), 16 * bi + j))),
{
    if block_has_vote_upto(image, total, bi, j + 1) && !block_has_vote_upto(image, total, bi, j) {
        let t = choose|t: int|
            0 <= t < j + 1 && 16 * bi + t < total && is_pure_type(
                page_bytes(image, 16 * bi + t)[0xFF2],
            ) && #[trigger] page_has_vote(page_bytes(image, 16 * bi + t), 16 * bi + t);
        assert(t == j);
    }
    if 16 * bi + j < total && is_pure_type(page_bytes(image, 16 * bi + j)[0xFF2]) && page_has_vote(
        page_bytes(image, 16 * bi + j),
        16 * bi + j,
    ) {
        assert(page_has_vote(page_bytes(image, 16 * bi + j), 16 * bi + j));
    }
}

proof fn lemma_fallback_lowest(m: Map<u64, u8>, b: u64)
    requires
        is_lowest_key(m, b),
    ensures
        fallback_of(m) == m[b],
{
    let c = choose|c: u64| is_lowest_key(m, c);
    assert(is_lowest_key(m, c));
    assert(c <= b && b <= c);
}

impl ApModel {
    /// Construct an [`ApModel`] by scanning every pure-AP page of `store`.
    ///
    /// Every sector of a pure-AP page (`'@'`, `'C'`, `'H'`, `'M'`) whose
    /// bytes are exactly an AP fill votes for the `bv` that its fill base
    /// implies; each block with votes learns the value most voted for in
    /// it. The fallback is the value of the lowest learned block.
    pub fn learn(store: &PageStore) -> (r: Self)
        ensures
            r.learned() == learned_map(store@),
            r.fallback() == fallback_of(learned_map(store@)),
    {
        let total = store.page_count();
        store.assert_shape();
        let _len = store.size_bytes();
        assert(total + 15 <= u64::MAX) by (nonlinear_arith)
            requires
                store@.len() == total * 4096,
                store@.len() <= u64::MAX,
        ;
        let nblocks = (total + 15) / 16;
        let ghost image = store@;
        let mut bv_map: HashMap<u64, u8> = HashMap::new();
        let mut bv0: u8 = 0;
        let mut have = false;
        let mut first: u64 = 0;
        let mut bi: u64 = 0;
        assert(bv_map@ =~= learned_upto(image, 0));
        while bi < nblocks
            invariant
                image == store@,
                total == page_total(image),
                total >= 1,
                image.len() == total * 4096,
                total + 15 <= u64::MAX,
                nblocks == (total + 15) / 16,
                bi <= nblocks,
                bv_map@ == learned_upto(image, bi as int),
                have ==> is_lowest_key(bv_map@, first) && bv0 == bv_map@[first],
                !have ==> forall|c: u64| !(#[trigger] bv_map@.contains_key(c)),
                !have ==> bv0 == 0,
            decreases nblocks - bi,
        {
            let mut votes: Vec<u32> = vec![0u32; 256];
            let mut any = false;
            let mut j: u64 = 0;
            while j < 16
                invariant
                    image == store@,
                    total == page_total(image),
                    image.len() == total * 4096,
                    total + 15 <= u64::MAX,
                    nblocks == (total + 15) / 16,
                    bi < nblocks,
                    j <= 16,
                    votes@.len() == 256,
                    forall|v: int|
                        0 <= v < 256 ==> #[trigger] votes@[v] == block_votes(
                            image,
                            total as int,
                            bi as int,
                            v,
                            j as int,
                        ),
                    forall|v: int| 0 <= v < 256 ==> #[trigger] votes@[v] <= 8 * j,
                    any == block_has_vote_upto(image, total as int, bi as int, j as int),
                decreases 16 - j,
            {
                let pn = bi * 16 + j;
                if pn < total {
                    let page = match store.page(pn) {
                        Ok(p) => p,
                        Err(_) => {
                            assert(false);
                            return ApModel { bv_map, bv0 };
                        },
                    };
                    let bytes = page.bytes();
                    let t = bytes[0xFF2];
                    if t == 0x40 || t == 0x43 || t == 0x48 || t == 0x4D {
                        let (pv, pany) = page_vote_counts(bytes, pn);
                        let mut v: usize = 0;
                        while v < 256
                            invariant
                                v <= 256,
                                j < 16,
                                pn == bi * 16 + j,
                                pn < total,
                                bytes@ == page_bytes(image, pn as int),
                                is_pure_type(bytes@[0xFF2]),
                                votes@.len() == 256,
                                pv@.len() == 256,
                                ints(pv@) == page_vote_hist(bytes@, pn as int),
                                forall|w: int|
                                    0 <= w < 256 ==> #[trigger] votes@[w] == block_votes(
                                        image,
                                        total as int,
                                        bi as int,
                                        w,
                                        j as int,
                                    ) + if w < v {
                                        page_contrib(image, pn as int, w)
                                    } else {
                                        0
                                    },
                                forall|w: int| 0 <= w < 256 ==> #[trigger] votes@[w] <= 8 * j + if w < v {
                                    8int
                                } else {
                                    0
                                },
                            decreases 256 - v,
                        {
                            proof {
                                assert(ints(pv@)[v as int] == pv@[v as int] as int);
                                lemma_page_votes_bound(bytes@, pn as int, v as int, 8);
                            }
                            let nv = votes[v] + pv[v];
                            votes.set(v, nv);
                            v += 1;
                        }
                        proof {
                            lemma_block_has_vote_next(image, total as int, bi as int, j as int);
                        }
                        any = any || pany;
                    } else {
                        proof {
                            lemma_block_has_vote_next(image, total as int, bi as int, j as int);
                        }
                    }
                } else {
                    proof {
                        lemma_block_has_vote_next(image, total as int, bi as int, j as int);
                    }
                }
                j += 1;
            }
            let ghost old_map = bv_map@;
            proof {
                assert(16 * bi < total);
            }
            if any {
                let b = argmax_last(&votes);
                proof {
                    assert(ints(votes@) =~= block_hist(image, total as int, bi as int));
                    lemma_last_argmax(block_hist(image, total as int, bi as int), b as int);
                }
                bv_map.insert(bi, b as u8);
                proof {
                    assert(bv_map@ =~= learned_upto(image, bi + 1));
                }
                if !have {
                    have = true;
                    first = bi;
                    bv0 = b as u8;
                }
            } else {
                proof {
                    assert(bv_map@ =~= learned_upto(image, bi + 1));
                }
            }
            bi += 1;
        }
        proof {
            assert(learned_upto(image, bi as int) =~= learned_map(image));
            if have {
                lemma_fallback_lowest(bv_map@, first);
            } else {
                assert(!exists|b: u64| is_lowest_key(bv_map@, b));
            }
        }
        ApModel { bv_map, bv0 }
    }

    /// The `bv` for block `bi`: its learned value, or the fallback for a
    /// block that was not learned.
    pub fn bv_at(&self, bi: u64) -> (r: u8)
        ensures
            r == self.spec_bv_at(bi),
    {
        match self.bv_map.get(&bi) {
            Some(v) => *v,
            None => self.bv0,
        }
    }

    /// Deobfuscate a full 4 KiB page under the `bv` of its block.
    ///
    /// `pn` is the zero-based page index within the store. The trailer and
    /// CRC footer (`0xFF0..0x1000`) are copied verbatim. For blocks that
    /// were not learned this uses the fallback; use
    /// [`ApModel::deobfuscate_with_store`] to resolve `bv` per page.
    pub fn deobfuscate(&self, raw: &[u8], pn: u64) -> (r: Vec<u8>)
        requires
            raw@.len() >= PAGE_SIZE,
        ensures
            r@ == deobfuscate_spec(raw@, pn as int, self.spec_bv_at(pn / 16) as int),
    {
        self.deobfuscate_with_bv(raw, pn, self.bv_at(pn / 16))
    }

    /// Deobfuscate using an explicitly supplied `bv`; the learned values are
    /// not consulted.
    pub fn deobfuscate_with_bv(&self, raw: &[u8], pn: u64, bv: u8) -> (r: Vec<u8>)
        requires
            raw@.len() >= PAGE_SIZE,
        ensures
            r@ == deobfuscate_spec(raw@, pn as int, bv as int),
    {
        deobfuscate_page(raw, pn, bv)
    }

    /// Brute-force recover `bv` for a block: the candidate with the highest
    /// [`page_score`] summed over the first three pages of the block (the
    /// greatest of equally scored candidates). A block beyond the store gets
    /// the fallback.
    ///
    /// This assumes `bv` is constant across the sampled pages, which does
    /// not hold on every file; [`Self::recover_bv_for_page`] does not.
    ///
    /// The block's page range `16 * bi .. 16 * bi + 16` must be
    /// representable as `u64` page numbers.
    pub fn recover_bv_for_block(&self, store: &PageStore, bi: u64) -> (r: u8)
        requires
            16 * bi + 16 <= u64::MAX,
        ensures
            r == block_recovered_bv(store@, bi as int, self.fallback()),
    {
        let total = store.page_count();
        store.assert_shape();
        let _len = store.size_bytes();
        let ghost image = store@;
        if bi >= total {
            proof {
                assert(16 * bi >= total);
            }
            return self.bv0;
        }
        let page_start = bi * 16;
        if page_start >= total {
            return self.bv0;
        }
        let mut bv_score: Vec<u32> = vec![0u32; 256];
        let mut t: u64 = 0;
        while t < 3
            invariant
                image == store@,
                total == page_total(image),
                image.len() == total * 4096,
                page_start == 16 * bi,
                page_start < total,
                t <= 3,
                bv_score@.len() == 256,
                forall|v: int|
                    0 <= v < 256 ==> #[trigger] bv_score@[v] == block_score(
                        image,
                        bi as int,
                        v,
                        t as int,
                    ),
                forall|v: int| 0 <= v < 256 ==> #[trigger] bv_score@[v] <= 3584 * t,
            decreases 3 - t,
        {
            let pn = page_start + t;
            if pn < total {
                let page = match store.page(pn) {
                    Ok(p) => p,
                    Err(_) => {
                        assert(false);
                        return self.bv0;
                    },
                };
                proof {
                    assert forall|v: int| 0 <= v < 256 implies page_score(
                        page_bytes(image, pn as int),
                        pn as int,
                        v,
                    ) <= 3584 by {
                        lemma_page_score_bound(page_bytes(image, pn as int), pn as int, v, 7);
                    }
                }
                score_bv_candidates(page.bytes(), pn, &mut bv_score);
            }
            t += 1;
        }
        let r = argmax_last(&bv_score);
        proof {
            assert(ints(bv_score@) =~= block_score_hist(image, bi as int));
            lemma_last_argmax(block_score_hist(image, bi as int), r as int);
        }
        r as u8
    }

    /// Brute-force recover `bv` for a single page: the candidate with the
    /// highest [`page_score`] for page `pn` (the greatest of equally scored
    /// candidates). A page beyond the store gets the fallback.
    pub fn recover_bv_for_page(&self, store: &PageStore, pn: u64) -> (r: u8)
        ensures
            r == page_recovered_bv(store@, pn as int, self.fallback()),
    {
        let page = match store.page(pn) {
            Ok(p) => p,
            Err(_) => return self.bv0,
        };
        let mut bv_score: Vec<u32> = vec![0u32; 256];
        score_bv_candidates(page.bytes(), pn, &mut bv_score);
        let r = argmax_last(&bv_score);
        proof {
            let bytes = page_bytes(store@, pn as int);
            assert(ints(bv_score@) =~= page_score_hist(bytes, pn as int));
            lemma_last_argmax(page_score_hist(bytes, pn as int), r as int);
        }
        r as u8
    }

    /// Deobfuscate a full 4 KiB page, resolving `bv` for this page rather
    /// than for its block: directly, if the page is itself a pure-AP page
    /// with a voting sector ([`learn_bv_for_page`]), otherwise by
    /// [`Self::recover_bv_for_page`]'s search over page `pn` of `store`.
    pub fn deobfuscate_with_store(&self, raw: &[u8], pn: u64, store: &PageStore) -> (r: Vec<u8>)
        requires
            raw@.len() >= PAGE_SIZE,
        ensures
            r@ == deobfuscate_spec(
                raw@,
                pn as int,
                resolved_bv(raw@, pn as int, store@, self.fallback()) as int,
            ),
    {
        let ptype = raw[TRAILER_START + 2];
        let bv = match learn_bv_for_page(raw, pn, ptype) {
            Some(b) => b,
            None => self.recover_bv_for_page(store, pn),
        };
        self.deobfuscate_with_bv(raw, pn, bv)
    }

    /// Number of blocks for which `bv` was learned from a pure-AP page.
    pub fn learned_block_count(&self) -> (r: usize)
        ensures
            r == self.learned().len(),
    {
        self.bv_map.len()
    }
}

impl Default for ApModel {
    /// A model with no learned block and fallback 0.
    fn default() -> (r: Self)
        ensures
            r.learned() == Map::<u64, u8>::empty(),
            r.fallback() == 0,
    {
        let m: HashMap<u64, u8> = HashMap::new();
        ApModel { bv_map: m, bv0: 0 }
    }
}


// ---------------------------------------------------------------------------
// Laws
// ---------------------------------------------------------------------------

/// Page `pn` holds only the fill of calibration byte `bv` (zero
/// plaintext): each sector `si` is the fill of base
/// `ap_base_spec(pn, si, bv)` and step `steps[si]`.
pub open spec fn is_zero_fill_page(raw: Seq<u8>, pn: int, bv: u8, steps: Seq<u8>) -> bool {
    &&& raw.len() == PAGE_SIZE
    &&& steps.len() == 8
    &&& forall|si: int|
        0 <= si < 8 ==> #[trigger] sector(raw, si) == fill_sector(
            ap_base_spec(pn, si, bv as int) as int,
            steps[si] as int,
            zeros((sector_end(si) - sector_start(si)) as nat),
        )
}

/// The fill base under `bv` minus the base under 0 is `bv`.
proof fn lemma_base_minus_offset(pn: int, si: int, bv: u8)
    ensures
        byte(ap_base_spec(pn, si, bv as int) - ap_base_spec(pn, si, 0)) == bv,
{
    let x = pn + si - base_bias(pn);
    let off = ap_base_spec(pn, si, 0);
    assert(off == byte(x));
    lemma_byte_inner(bv + x, -(off as int));
    lemma_fundamental_div_mod(x, 256);
    assert(bv + x - off == bv + 256 * (x / 256));
    lemma_byte_shift(bv as int, x / 256);
}

/// Every sector of a page that holds only the fill of `bv` votes for `bv`.
proof fn lemma_sector_votes_zero_fill(raw: Seq<u8>, pn: int, bv: u8, steps: Seq<u8>)
    requires
        is_zero_fill_page(raw, pn, bv, steps),
    ensures
        forall|si: int| 0 <= si < 8 ==> #[trigger] sector_vote(raw, pn, si) == Some(bv),
{
    assert forall|si: int| 0 <= si < 8 implies #[trigger] sector_vote(raw, pn, si) == Some(bv) by {
        let m = (sector_end(si) - sector_start(si)) as nat;
        let base = ap_base_spec(pn, si, bv as int);
        let st = steps[si];
        assert(sector(raw, si) == fill_sector(base as int, st as int, zeros(m)));
        lemma_pure_dominant_step(base, st, m);
        lemma_pure_recover_base(base, st, m);
        lemma_pure_hits(base, st, m);
        // The vote inverts the base formula.
        let x = pn + si - base_bias(pn);
        lemma_byte_inner(bv + x, -pn - si + base_bias(pn));
        assert(bv + x + (-pn - si + base_bias(pn)) == bv as int);
    }
}

/// A pure-AP page that holds only the fill of `bv` teaches exactly `bv`.
pub proof fn lemma_learn_zero_fill(raw: Seq<u8>, pn: int, bv: u8, steps: Seq<u8>, ptype: u8)
    requires
        is_zero_fill_page(raw, pn, bv, steps),
        is_pure_type(ptype),
    ensures
        page_bv(raw, pn, ptype) == Some(bv),
{
    lemma_sector_votes_zero_fill(raw, pn, bv, steps);
    let h = page_vote_hist(raw, pn);
    assert forall|v: int| 0 <= v < 256 implies h[v] == if v == bv as int {
        8int
    } else {
        0int
    } by {
        lemma_votes_all(raw, pn, bv, v, 8);
    }
    assert(sector_vote(raw, pn, 0) is Some);
    assert(is_last_argmax(h, bv as int));
    lemma_last_argmax(h, bv as int);
}

proof fn lemma_votes_all(raw: Seq<u8>, pn: int, bv: u8, v: int, n: int)
    requires
        0 <= n <= 8,
        0 <= v < 256,
        forall|si: int| 0 <= si < 8 ==> #[trigger] sector_vote(raw, pn, si) == Some(bv),
    ensures
        page_votes(raw, pn, v, n) == if v == bv as int {
            n
        } else {
            0
        },
    decreases n,
{
    if n > 0 {
        lemma_votes_all(raw, pn, bv, v, n - 1);
        assert(sector_vote(raw, pn, n - 1) == Some(bv));
    }
}

proof fn lemma_stepmax_ge(sec: Seq<u8>, off: int, c: int, k: int, s: int)
    requires
        0 <= s < k,
    ensures
        stepmax(sec, off, c, k) >= key_count(plain_keys(sec, off, s), c, sec.len() as int),
    decreases k,
{
    if s < k - 1 {
        lemma_stepmax_ge(sec, off, c, k - 1, s);
    }
}

proof fn lemma_stepmax_le(sec: Seq<u8>, off: int, c: int, k: int, m: int)
    requires
        0 <= m,
        forall|s: int| 0 <= s < k ==> #[trigger] key_count(plain_keys(sec, off, s), c, sec.len() as int) <= m,
    ensures
        stepmax(sec, off, c, k) <= m,
    decreases k,
{
    if k > 0 {
        lemma_stepmax_le(sec, off, c, k - 1, m);
    }
}

/// In each scored sector of a page that holds only the fill of `bv`, `bv`
/// explains all 512 bytes under the true step, and any other candidate
/// explains at most 511 under any step.
proof fn lemma_sector_score_zero_fill(raw: Seq<u8>, pn: int, bv: u8, steps: Seq<u8>, si: int, c: int)
    requires
        is_zero_fill_page(raw, pn, bv, steps),
        0 <= si < 7,
        0 <= c < 256,
    ensures
        c == bv ==> stepmax(full_sector(raw, si), ap_base_spec(pn, si, 0) as int, c, 256) == 512,
        c != bv ==> stepmax(full_sector(raw, si), ap_base_spec(pn, si, 0) as int, c, 256) <= 511,
{
    let sec = full_sector(raw, si);
    let off = ap_base_spec(pn, si, 0) as int;
    let base = ap_base_spec(pn, si, bv as int);
    let st = steps[si];
    assert(sec == sector(raw, si));
    assert(sec == fill_sector(base as int, st as int, zeros(512)));
    lemma_base_minus_offset(pn, si, bv);
    lemma_stepmax_bound(sec, off, c, 256);
    if c == bv {
        let keys = plain_keys(sec, off, st as int);
        assert forall|i: int| 0 <= i < 512 implies keys[i] as int == bv as int by {
            lemma_byte_inner(base + i * st + 0, -off - i * st);
            assert(base + i * st + 0 + (-off - i * st) == base - off);
        }
        lemma_count_all(keys, bv as int, c, 512);
        lemma_stepmax_ge(sec, off, c, 256, st as int);
    } else {
        assert forall|s: int| 0 <= s < 256 implies #[trigger] key_count(
            plain_keys(sec, off, s),
            c,
            sec.len() as int,
        ) <= 511 by {
            let keys = plain_keys(sec, off, s);
            lemma_byte_inner(base + 0 * st + 0, -off - 0 * s);
            assert(base + 0 * st + 0 + (-off - 0 * s) == base - off);
            assert(keys[0] == bv);
            lemma_count_miss(keys, c, 512, 0);
        }
        lemma_stepmax_le(sec, off, c, 256, 511);
    }
}

proof fn lemma_page_score_zero_fill(raw: Seq<u8>, pn: int, bv: u8, steps: Seq<u8>, c: int, n: int)
    requires
        is_zero_fill_page(raw, pn, bv, steps),
        0 <= n <= 7,
        0 <= c < 256,
    ensures
        c == bv ==> page_score_upto(raw, pn, c, n) == 512 * n,
        c != bv ==> page_score_upto(raw, pn, c, n) <= 511 * n,
    decreases n,
{
    if n > 0 {
        lemma_page_score_zero_fill(raw, pn, bv, steps, c, n - 1);
        lemma_sector_score_zero_fill(raw, pn, bv, steps, n - 1, c);
    }
}

/// The brute-force search over a page that holds only the fill of `bv`
/// finds `bv`.
pub proof fn lemma_recover_zero_fill(image: Seq<u8>, pn: int, bv: u8, steps: Seq<u8>, fallback: u8)
    requires
        0 <= pn < page_total(image),
        is_zero_fill_page(page_bytes(image, pn), pn, bv, steps),
    ensures
        page_recovered_bv(image, pn, fallback) == bv,
{
    let raw = page_bytes(image, pn);
    let h = page_score_hist(raw, pn);
    assert forall|c: int| 0 <= c < 256 implies #[trigger] h[c] <= h[bv as int] && (c > bv ==> h[c]
        < h[bv as int]) by {
        lemma_page_score_zero_fill(raw, pn, bv, steps, c, 7);
        lemma_page_score_zero_fill(raw, pn, bv, steps, bv as int, 7);
    }
    assert(is_last_argmax(h, bv as int));
    lemma_last_argmax(h, bv as int);
}


/// The `bv` that [`ApModel::deobfuscate_with_store`] resolves for page `pn`
/// with contents `raw`: the page's own calibration if it is a pure-AP page
/// with a voting sector, otherwise the brute-force search over page `pn` of
/// the store.
pub open spec fn resolved_bv(raw: Seq<u8>, pn: int, image: Seq<u8>, fallback: u8) -> u8 {
    match page_bv(raw, pn, raw[0xFF2]) {
        Some(b) => b,
        None => page_recovered_bv(image, pn, fallback),
    }
}

/// The fallback of a learned map is the value of block 0 whenever block 0 is
/// learned.
pub proof fn lemma_fallback_block0(m: Map<u64, u8>)
    requires
        m.contains_key(0),
    ensures
        fallback_of(m) == m[0],
{
    assert(is_lowest_key(m, 0));
    lemma_fallback_lowest(m, 0);
}


/// Every pure-AP page of block `bi` holds only the fill of `bv`.
pub open spec fn block_is_zero_fill(image: Seq<u8>, bi: int, bv: u8) -> bool {
    forall|pn: int|
        #![trigger page_bytes(image, pn)]
        16 * bi <= pn < 16 * bi + 16 && pn < page_total(image) && is_pure_type(
            page_bytes(image, pn)[0xFF2],
        ) ==> exists|steps: Seq<u8>| #[trigger] is_zero_fill_page(page_bytes(image, pn), pn, bv, steps)
}

proof fn lemma_block_votes_zero_fill(image: Seq<u8>, bi: int, bv: u8, c: int, j: int)
    requires
        0 <= j <= 16,
        0 <= c < 256,
        block_is_zero_fill(image, bi, bv),
    ensures
        c != bv ==> block_votes(image, page_total(image), bi, c, j) == 0,
        c == bv ==> block_has_vote_upto(image, page_total(image), bi, j) ==> block_votes(
            image,
            page_total(image),
            bi,
            c,
            j,
        ) >= 8,
    decreases j,
{
    if j > 0 {
        lemma_block_votes_zero_fill(image, bi, bv, c, j - 1);
        let total = page_total(image);
        let pn = 16 * bi + j - 1;
        if pn < total && is_pure_type(page_bytes(image, pn)[0xFF2]) {
            assert(page_bytes(image, pn) == page_bytes(image, pn));
            let steps = choose|steps: Seq<u8>|
                #[trigger] is_zero_fill_page(page_bytes(image, pn), pn, bv, steps);
            lemma_sector_votes_zero_fill(page_bytes(image, pn), pn, bv, steps);
            lemma_votes_all(page_bytes(image, pn), pn, bv, c, 8);
        }
        lemma_block_has_vote_next(image, total, bi, j - 1);
    }
}

/// A block whose pure-AP pages all hold only the fill of `bv`, with at
/// least one such page, learns `bv`.
pub proof fn lemma_learn_block_zero_fill(image: Seq<u8>, bi: u64, bv: u8)
    requires
        16 * bi < page_total(image),
        block_is_zero_fill(image, bi as int, bv),
        exists|pn: int|
            16 * bi <= pn < 16 * bi + 16 && pn < page_total(image) && #[trigger] is_pure_type(
                page_bytes(image, pn)[0xFF2],
            ),
    ensures
        learned_map(image).contains_key(bi),
        learned_map(image)[bi] == bv,
{
    let total = page_total(image);
    let pn = choose|pn: int|
        16 * bi <= pn < 16 * bi + 16 && pn < total && #[trigger] is_pure_type(
            page_bytes(image, pn)[0xFF2],
        );
    assert(page_bytes(image, pn) == page_bytes(image, pn));
    let steps = choose|steps: Seq<u8>|
        #[trigger] is_zero_fill_page(page_bytes(image, pn), pn, bv, steps);
    lemma_sector_votes_zero_fill(page_bytes(image, pn), pn, bv, steps);
    assert(sector_vote(page_bytes(image, pn), pn, 0) is Some);
    assert(page_has_vote(page_bytes(image, pn), pn));
    let t = pn - 16 * bi;
    assert(16 * bi + t == pn);
    assert(block_has_vote(image, total, bi as int));
    let h = block_hist(image, total, bi as int);
    assert forall|c: int| 0 <= c < 256 implies (c != bv ==> #[trigger] h[c] == 0) && (c == bv
        ==> h[c] >= 8) by {
        lemma_block_votes_zero_fill(image, bi as int, bv, c, 16);
    }
    assert(is_last_argmax(h, bv as int));
    lemma_last_argmax(h, bv as int);
    assert(bi < total);
}

/// The vote of a sector inverts the fill-base formula: from the base of
/// sector `si` of page `pn` under `bv`, `base - pn - si + 4 * ((pn % 16) / 2)`
/// gives `bv` back.
pub proof fn lemma_ap_base_inverse(pn: int, si: int, bv: u8)
    ensures
        byte(ap_base_spec(pn, si, bv as int) - pn - si + base_bias(pn)) == bv,
{
    let x = bv + pn + si - base_bias(pn);
    lemma_byte_inner(x, -pn - si + base_bias(pn));
    assert(x + (-pn - si + base_bias(pn)) == bv as int);
}

/// Deobfuscation, under any `bv`, leaves the trailer and CRC footer
/// (`0xFF0..0x1000`) as they were.
pub proof fn lemma_deobfuscate_keeps_trailer(raw: Seq<u8>, pn: int, bv: int)
    requires
        raw.len() >= PAGE_SIZE,
    ensures
        deobfuscate_spec(raw, pn, bv).subrange(TRAILER_START as int, PAGE_SIZE as int)
            == raw.subrange(TRAILER_START as int, PAGE_SIZE as int),
{
    assert(deobfuscate_spec(raw, pn, bv).subrange(TRAILER_START as int, PAGE_SIZE as int)
        =~= raw.subrange(TRAILER_START as int, PAGE_SIZE as int));
}

/// On a pure-AP page that holds only the fill of `bv`, the brute-force
/// search finds the value that the page teaches directly.
pub proof fn lemma_recover_matches_learn(
    image: Seq<u8>,
    pn: int,
    bv: u8,
    steps: Seq<u8>,
    ptype: u8,
    fallback: u8,
)
    requires
        0 <= pn < page_total(image),
        is_zero_fill_page(page_bytes(image, pn), pn, bv, steps),
        is_pure_type(ptype),
    ensures
        page_bv(page_bytes(image, pn), pn, ptype) == Some(page_recovered_bv(image, pn, fallback)),
{
    lemma_learn_zero_fill(page_bytes(image, pn), pn, bv, steps, ptype);
    lemma_recover_zero_fill(image, pn, bv, steps, fallback);
}

/// Each of the first three pages of block `bi` that lies in the store holds
/// only the fill of `bv`.
pub open spec fn block_head_is_zero_fill(image: Seq<u8>, bi: int, bv: u8) -> bool {
    forall|pn: int|
        #![trigger page_bytes(image, pn)]
        16 * bi <= pn < 16 * bi + 3 && pn < page_total(image) ==> exists|steps: Seq<u8>|
            #[trigger] is_zero_fill_page(page_bytes(image, pn), pn, bv, steps)
}

/// The number of the first `t` pages of block `bi` that lie in the store.
pub open spec fn pages_in_store(image: Seq<u8>, bi: int, t: int) -> nat
    decreases t,
{
    if t <= 0 {
        0
    } else {
        pages_in_store(image, bi, t - 1) + if 16 * bi + t - 1 < page_total(image) {
            1nat
        } else {
            0nat
        }
    }
}

proof fn lemma_block_score_zero_fill(image: Seq<u8>, bi: int, bv: u8, c: int, t: int)
    requires
        0 <= t <= 3,
        0 <= c < 256,
        0 <= bi,
        block_head_is_zero_fill(image, bi, bv),
    ensures
        c == bv ==> block_score(image, bi, c, t) == 3584 * pages_in_store(image, bi, t),
        c != bv ==> block_score(image, bi, c, t) <= 3577 * pages_in_store(image, bi, t),
    decreases t,
{
    if t > 0 {
        lemma_block_score_zero_fill(image, bi, bv, c, t - 1);
        let pn = 16 * bi + t - 1;
        if pn < page_total(image) {
            assert(page_bytes(image, pn) == page_bytes(image, pn));
            let steps = choose|steps: Seq<u8>|
                #[trigger] is_zero_fill_page(page_bytes(image, pn), pn, bv, steps);
            lemma_page_score_zero_fill(page_bytes(image, pn), pn, bv, steps, c, 7);
        }
    }
}

/// The brute-force search over a block whose first pages in the store hold
/// only the fill of `bv` finds `bv`.
pub proof fn lemma_recover_block_zero_fill(image: Seq<u8>, bi: int, bv: u8, fallback: u8)
    requires
        0 <= 16 * bi < page_total(image),
        block_head_is_zero_fill(image, bi, bv),
    ensures
        block_recovered_bv(image, bi, fallback) == bv,
{
    let h = block_score_hist(image, bi);
    assert(pages_in_store(image, bi, 0) == 0);
    assert(pages_in_store(image, bi, 1) == 1);
    assert(pages_in_store(image, bi, 2) >= 1);
    assert(pages_in_store(image, bi, 3) >= 1);
    assert forall|c: int| 0 <= c < 256 implies #[trigger] h[c] <= h[bv as int] && (c != bv ==> h[c]
        < h[bv as int]) by {
        lemma_block_score_zero_fill(image, bi, bv, c, 3);
        lemma_block_score_zero_fill(image, bi, bv, bv as int, 3);
    }
    assert(is_last_argmax(h, bv as int));
    lemma_last_argmax(h, bv as int);
}

/// Page `pn` holds the data-region plaintext `plain` under the fill of
/// calibration byte `bv`: sector `si` is the fill of base
/// `ap_base_spec(pn, si, bv)` and step `steps[si]` over the plaintext bytes
/// of that sector. The trailer, and anything after the page, may hold
/// anything.
pub open spec fn is_filled_page(
    raw: Seq<u8>,
    pn: int,
    bv: u8,
    steps: Seq<u8>,
    plain: Seq<u8>,
) -> bool {
    &&& raw.len() >= PAGE_SIZE
    &&& plain.len() == TRAILER_START
    &&& steps.len() == 8
    &&& forall|si: int|
        0 <= si < 8 ==> #[trigger] sector(raw, si) == fill_sector(
            ap_base_spec(pn, si, bv as int) as int,
            steps[si] as int,
            sector(plain, si),
        )
}

/// In every sector of `plain`, fewer than a quarter of the bytes are
/// non-zero.
pub open spec fn is_sparse_plaintext(plain: Seq<u8>) -> bool {
    forall|si: int|
        0 <= si < 8 ==> 4 * ((sector_end(si) - sector_start(si)) - key_count(
            #[trigger] sector(plain, si),
            0,
            sector_end(si) - sector_start(si),
        )) < sector_end(si) - sector_start(si)
}

/// Removing the fill of the true `bv` gives back any plaintext in which
/// fewer than a quarter of each sector's bytes are non-zero, whatever the
/// steps; the trailer is kept as it was.
pub proof fn lemma_deobfuscate_sparse(
    raw: Seq<u8>,
    pn: int,
    bv: u8,
    steps: Seq<u8>,
    plain: Seq<u8>,
)
    requires
        is_filled_page(raw, pn, bv, steps, plain),
        is_sparse_plaintext(plain),
    ensures
        deobfuscate_spec(raw, pn, bv as int) == plain + raw.subrange(
            TRAILER_START as int,
            PAGE_SIZE as int,
        ),
{
    let out = deobfuscate_spec(raw, pn, bv as int);
    let want = plain + raw.subrange(TRAILER_START as int, PAGE_SIZE as int);
    assert forall|k: int| 0 <= k < PAGE_SIZE implies out[k] == want[k] by {
        if k < TRAILER_START {
            let si = k / 512;
            let ps = sector(plain, si);
            let base = ap_base_spec(pn, si, bv as int);
            assert(sector(raw, si) == fill_sector(base as int, steps[si] as int, ps));
            lemma_sparse_best_step(base, steps[si], ps);
            lemma_unfill_fill(base as int, steps[si] as int, ps);
            assert(ps[k - sector_start(si)] == plain[k]);
        }
    }
    assert(out =~= want);
}

/// The number of zero plaintext bytes of sector `si` of `plain`.
pub open spec fn sector_zeros(plain: Seq<u8>, si: int) -> int {
    key_count(sector(plain, si), 0, sector_end(si) - sector_start(si)) as int
}

proof fn lemma_count_where_nonzero(keys: Seq<u8>, p: Seq<u8>, c: int, n: int)
    requires
        0 <= n <= keys.len(),
        n <= p.len(),
        forall|i: int| 0 <= i < n && keys[i] as int == c ==> p[i] != 0,
    ensures
        key_count(keys, c, n) + key_count(p, 0, n) <= n,
    decreases n,
{
    if n > 0 {
        lemma_count_where_nonzero(keys, p, c, n - 1);
    }
}

proof fn lemma_count_where_zero(keys: Seq<u8>, p: Seq<u8>, c: int, n: int)
    requires
        0 <= n <= keys.len(),
        n <= p.len(),
        forall|i: int| 0 <= i < n && p[i] == 0 ==> keys[i] as int == c,
    ensures
        key_count(keys, c, n) >= key_count(p, 0, n),
    decreases n,
{
    if n > 0 {
        lemma_count_where_zero(keys, p, c, n - 1);
    }
}

proof fn lemma_count_none(p: Seq<u8>, v: int, n: int)
    requires
        0 <= n <= p.len(),
        forall|i: int| 0 <= i < n ==> p[i] as int != v,
    ensures
        key_count(p, v, n) == 0,
    decreases n,
{
    if n > 0 {
        lemma_count_none(p, v, n - 1);
    }
}

/// In each scored sector of a page whose plaintext is sparse, `bv` explains
/// every zero plaintext byte under the true step, and any other candidate
/// explains at most 256 bytes plus one per non-zero plaintext byte under
/// any step.
proof fn lemma_sector_score_sparse(
    raw: Seq<u8>,
    pn: int,
    bv: u8,
    steps: Seq<u8>,
    plain: Seq<u8>,
    si: int,
    c: int,
)
    requires
        is_filled_page(raw, pn, bv, steps, plain),
        is_sparse_plaintext(plain),
        0 <= si < 7,
        0 <= c < 256,
    ensures
        c == bv ==> stepmax(full_sector(raw, si), ap_base_spec(pn, si, 0) as int, c, 256)
            >= sector_zeros(plain, si),
        c != bv ==> stepmax(full_sector(raw, si), ap_base_spec(pn, si, 0) as int, c, 256) <= 256
            + (512 - sector_zeros(plain, si)),
{
    let sec = full_sector(raw, si);
    let off = ap_base_spec(pn, si, 0) as int;
    let base = ap_base_spec(pn, si, bv as int) as int;
    let st = steps[si] as int;
    let ps = sector(plain, si);
    assert(sec == sector(raw, si));
    assert(sec == fill_sector(base, st, ps));
    lemma_base_minus_offset(pn, si, bv);
    assert(st - st == 0);
    if c == bv {
        let keys = plain_keys(sec, off, st);
        assert forall|i: int| 0 <= i < 512 && ps[i] == 0 implies keys[i] as int == c by {
            lemma_refill_key(ps, base, st, off, st, i);
            assert(i * (st - st) == 0) by (nonlinear_arith)
                requires
                    st - st == 0,
            ;
        }
        lemma_count_where_zero(keys, ps, c, 512);
        lemma_stepmax_ge(sec, off, c, 256, st);
    } else {
        lemma_key_count_bound(ps, 0, 512);
        assert forall|s: int| 0 <= s < 256 implies #[trigger] key_count(
            plain_keys(sec, off, s),
            c,
            sec.len() as int,
        ) <= 256 + (512 - sector_zeros(plain, si)) by {
            let keys = plain_keys(sec, off, s);
            if s == st {
                assert forall|i: int| 0 <= i < 512 && keys[i] as int == c implies ps[i] != 0 by {
                    lemma_refill_key(ps, base, st, off, s, i);
                    assert(i * (st - s) == 0) by (nonlinear_arith)
                        requires
                            st - s == 0,
                    ;
                }
                lemma_count_where_nonzero(keys, ps, c, 512);
            } else {
                lemma_steps_apart(st, s);
                lemma_pair_count(ps, base, st, off, s, c, 256);
            }
        }
        lemma_stepmax_le(sec, off, c, 256, 256 + (512 - sector_zeros(plain, si)));
    }
}

proof fn lemma_page_score_sparse(
    raw: Seq<u8>,
    pn: int,
    bv: u8,
    steps: Seq<u8>,
    plain: Seq<u8>,
    c: int,
    n: int,
)
    requires
        is_filled_page(raw, pn, bv, steps, plain),
        is_sparse_plaintext(plain),
        0 <= n <= 7,
        0 <= c < 256,
        c != bv,
    ensures
        page_score_upto(raw, pn, c, n) + n <= page_score_upto(raw, pn, bv as int, n),
    decreases n,
{
    if n > 0 {
        lemma_page_score_sparse(raw, pn, bv, steps, plain, c, n - 1);
        lemma_sector_score_sparse(raw, pn, bv, steps, plain, n - 1, c);
        lemma_sector_score_sparse(raw, pn, bv, steps, plain, n - 1, bv as int);
        assert(4 * (512 - sector_zeros(plain, n - 1)) < 512);
    }
}

/// The brute-force search over a page whose plaintext is sparse finds the
/// page's own `bv`.
pub proof fn lemma_recover_sparse(
    image: Seq<u8>,
    pn: int,
    bv: u8,
    steps: Seq<u8>,
    plain: Seq<u8>,
    fallback: u8,
)
    requires
        0 <= pn < page_total(image),
        is_filled_page(page_bytes(image, pn), pn, bv, steps, plain),
        is_sparse_plaintext(plain),
    ensures
        page_recovered_bv(image, pn, fallback) == bv,
{
    let raw = page_bytes(image, pn);
    let h = page_score_hist(raw, pn);
    assert forall|c: int| 0 <= c < 256 implies #[trigger] h[c] <= h[bv as int] && (c != bv ==> h[c]
        < h[bv as int]) by {
        if c != bv {
            lemma_page_score_sparse(raw, pn, bv, steps, plain, c, 7);
        }
    }
    assert(is_last_argmax(h, bv as int));
    lemma_last_argmax(h, bv as int);
}

/// A sector of a page whose plaintext is sparse either casts no vote or
/// votes for the page's own `bv`.
proof fn lemma_sector_vote_sparse(
    raw: Seq<u8>,
    pn: int,
    bv: u8,
    steps: Seq<u8>,
    plain: Seq<u8>,
    si: int,
)
    requires
        is_filled_page(raw, pn, bv, steps, plain),
        is_sparse_plaintext(plain),
        0 <= si < 8,
    ensures
        sector_vote(raw, pn, si) is None || sector_vote(raw, pn, si) == Some(bv),
{
    let sec = sector(raw, si);
    let n = sector_end(si) - sector_start(si);
    let ps = sector(plain, si);
    let base = ap_base_spec(pn, si, bv as int) as int;
    let step = steps[si] as int;
    let st = dominant_step_spec(sec);
    let b = recover_base_spec(sec, st);
    assert(sec == fill_sector(base, step, ps));
    if hits_spec(sec, b, st) == sec.len() {
        let keys = plain_keys(sec, b, st);
        assert forall|i: int| 0 <= i < n implies keys[i] == 0 by {
            if keys[i] != 0 {
                lemma_count_miss(keys, 0, n, i);
            }
        }
        lemma_last_argmax(hist_of(diff_keys(sec)), 0);
        lemma_last_argmax(hist_of(base_keys(sec, st)), 0);
        lemma_key_count_bound(ps, 0, n);
        if st != step {
            lemma_steps_apart(step, st);
            lemma_pair_count(ps, base, step, b, st, 0, n / 2);
            lemma_count_all(keys, 0, 0, n);
            assert(false);
        }
        if forall|i: int| 0 <= i < n ==> ps[i] as int != 0 {
            lemma_count_none(ps, 0, n);
            assert(false);
        }
        let i0 = choose|i: int| 0 <= i < n && ps[i] == 0;
        lemma_refill_key(ps, base, step, b, st, i0);
        assert(i0 * (step - st) == 0) by (nonlinear_arith)
            requires
                step - st == 0,
        ;
        assert(byte(base - b) == 0);
        if base != b {
            lemma_steps_apart(base, b);
        }
        lemma_ap_base_inverse(pn, si, bv);
    }
}

proof fn lemma_votes_sparse(raw: Seq<u8>, pn: int, bv: u8, steps: Seq<u8>, plain: Seq<u8>, v: int, n: int)
    requires
        is_filled_page(raw, pn, bv, steps, plain),
        is_sparse_plaintext(plain),
        0 <= n <= 8,
        0 <= v < 256,
        v != bv,
    ensures
        page_votes(raw, pn, v, n) == 0,
    decreases n,
{
    if n > 0 {
        lemma_votes_sparse(raw, pn, bv, steps, plain, v, n - 1);
        lemma_sector_vote_sparse(raw, pn, bv, steps, plain, n - 1);
    }
}

proof fn lemma_votes_witness(raw: Seq<u8>, pn: int, v: int, n: int, si: int)
    requires
        0 <= si < n,
        0 <= v < 256,
        sector_vote(raw, pn, si) == Some(v as u8),
    ensures
        page_votes(raw, pn, v, n) >= 1,
    decreases n,
{
    if si < n - 1 {
        lemma_votes_witness(raw, pn, v, n - 1, si);
    }
}

/// A page whose plaintext is sparse teaches either nothing or its own `bv`.
pub proof fn lemma_learn_sparse(
    raw: Seq<u8>,
    pn: int,
    bv: u8,
    steps: Seq<u8>,
    plain: Seq<u8>,
    ptype: u8,
)
    requires
        is_filled_page(raw, pn, bv, steps, plain),
        is_sparse_plaintext(plain),
    ensures
        page_bv(raw, pn, ptype) is None || page_bv(raw, pn, ptype) == Some(bv),
{
    if is_pure_type(ptype) && page_has_vote(raw, pn) {
        let si = choose|si: int| 0 <= si < 8 && #[trigger] sector_vote(raw, pn, si) is Some;
        lemma_sector_vote_sparse(raw, pn, bv, steps, plain, si);
        lemma_votes_witness(raw, pn, bv as int, 8, si);
        let h = page_vote_hist(raw, pn);
        assert forall|v: int| 0 <= v < 256 implies #[trigger] h[v] <= h[bv as int] && (v != bv
            ==> h[v] < h[bv as int]) by {
            if v != bv {
                lemma_votes_sparse(raw, pn, bv, steps, plain, v, 8);
            }
        }
        assert(is_last_argmax(h, bv as int));
        lemma_last_argmax(h, bv as int);
    }
}

/// Per-page resolution of `bv` decodes every page of the store whose
/// plaintext is sparse (fewer than a quarter of each sector's bytes
/// non-zero), whatever its page type and whatever `bv` the rest of its
/// block uses: for a buffer `raw` that starts with page `pn` of the store,
/// the data region comes out as the plaintext and the trailer unchanged.
pub proof fn lemma_deobfuscate_with_store_sparse(
    image: Seq<u8>,
    pn: int,
    raw: Seq<u8>,
    bv: u8,
    steps: Seq<u8>,
    plain: Seq<u8>,
    fallback: u8,
)
    requires
        0 <= pn < page_total(image),
        is_filled_page(raw, pn, bv, steps, plain),
        raw.subrange(0, PAGE_SIZE as int) == page_bytes(image, pn),
        is_sparse_plaintext(plain),
    ensures
        deobfuscate_spec(raw, pn, resolved_bv(raw, pn, image, fallback) as int) == plain
            + raw.subrange(TRAILER_START as int, PAGE_SIZE as int),
{
    let page = page_bytes(image, pn);
    assert forall|si: int| 0 <= si < 8 implies #[trigger] sector(page, si) == sector(raw, si) by {
        assert(sector(page, si) =~= sector(raw, si));
    }
    assert(is_filled_page(page, pn, bv, steps, plain));
    lemma_learn_sparse(raw, pn, bv, steps, plain, raw[0xFF2]);
    lemma_recover_sparse(image, pn, bv, steps, plain, fallback);
    lemma_deobfuscate_sparse(raw, pn, bv, steps, plain);
}

/// Every pure-AP page of block `bi` holds sparse plaintext under the fill
/// of `bv`.
pub open spec fn block_is_sparse(image: Seq<u8>, bi: int, bv: u8) -> bool {
    forall|pn: int|
        #![trigger page_bytes(image, pn)]
        16 * bi <= pn < 16 * bi + 16 && pn < page_total(image) && is_pure_type(
            page_bytes(image, pn)[0xFF2],
        ) ==> exists|steps: Seq<u8>, plain: Seq<u8>|
            #[trigger] is_filled_page(page_bytes(image, pn), pn, bv, steps, plain)
                && is_sparse_plaintext(plain)
}

proof fn lemma_block_votes_sparse(image: Seq<u8>, bi: int, bv: u8, c: int, j: int)
    requires
        0 <= j <= 16,
        0 <= c < 256,
        block_is_sparse(image, bi, bv),
    ensures
        c != bv ==> block_votes(image, page_total(image), bi, c, j) == 0,
        c == bv && block_has_vote_upto(image, page_total(image), bi, j) ==> block_votes(
            image,
            page_total(image),
            bi,
            c,
            j,
        ) >= 1,
    decreases j,
{
    if j > 0 {
        lemma_block_votes_sparse(image, bi, bv, c, j - 1);
        let total = page_total(image);
        let pn = 16 * bi + j - 1;
        if pn < total && is_pure_type(page_bytes(image, pn)[0xFF2]) {
            assert(page_bytes(image, pn) == page_bytes(image, pn));
            let (steps, plain) = choose|steps: Seq<u8>, plain: Seq<u8>|
                #[trigger] is_filled_page(page_bytes(image, pn), pn, bv, steps, plain)
                    && is_sparse_plaintext(plain);
            if c != bv {
                lemma_votes_sparse(page_bytes(image, pn), pn, bv, steps, plain, c, 8);
            } else if page_has_vote(page_bytes(image, pn), pn) {
                let si = choose|si: int|
                    0 <= si < 8 && #[trigger] sector_vote(page_bytes(image, pn), pn, si) is Some;
                lemma_sector_vote_sparse(page_bytes(image, pn), pn, bv, steps, plain, si);
                lemma_votes_witness(page_bytes(image, pn), pn, bv as int, 8, si);
            }
        }
        lemma_block_has_vote_next(image, total, bi, j - 1);
    }
}

/// A block whose pure-AP pages all hold sparse plaintext under the fill of
/// `bv` learns `bv` as soon as one of their sectors votes.
pub proof fn lemma_learn_block_sparse(image: Seq<u8>, bi: u64, bv: u8)
    requires
        16 * bi < page_total(image),
        block_is_sparse(image, bi as int, bv),
        block_has_vote(image, page_total(image), bi as int),
    ensures
        learned_map(image).contains_key(bi),
        learned_map(image)[bi] == bv,
{
    let total = page_total(image);
    let h = block_hist(image, total, bi as int);
    assert forall|c: int| 0 <= c < 256 implies (c != bv ==> #[trigger] h[c] == 0) && (c == bv
        ==> h[c] >= 1) by {
        lemma_block_votes_sparse(image, bi as int, bv, c, 16);
    }
    assert(is_last_argmax(h, bv as int));
    lemma_last_argmax(h, bv as int);
    assert(bi < total);
}

/// Every sector of `plain` holds one repeated byte (possibly a different
/// byte in each sector).
pub open spec fn has_constant_sectors(plain: Seq<u8>) -> bool {
    forall|si: int, i: int|
        0 <= si < 8 && sector_start(si) <= i < sector_end(si) ==> #[trigger] plain[i]
            == plain[#[trigger] sector_start(si)]
}

/// Removing the fill of the true `bv` gives back any plaintext whose
/// sectors each hold one repeated byte (such as fully set `0xFF` bitmap
/// sectors), whatever the steps; the trailer is kept as it was.
pub proof fn lemma_deobfuscate_constant_sectors(
    raw: Seq<u8>,
    pn: int,
    bv: u8,
    steps: Seq<u8>,
    plain: Seq<u8>,
)
    requires
        is_filled_page(raw, pn, bv, steps, plain),
        has_constant_sectors(plain),
    ensures
        deobfuscate_spec(raw, pn, bv as int) == plain + raw.subrange(
            TRAILER_START as int,
            PAGE_SIZE as int,
        ),
{
    let out = deobfuscate_spec(raw, pn, bv as int);
    let want = plain + raw.subrange(TRAILER_START as int, PAGE_SIZE as int);
    assert forall|k: int| 0 <= k < PAGE_SIZE implies out[k] == want[k] by {
        if k < TRAILER_START {
            let si = k / 512;
            let ps = sector(plain, si);
            let n = (sector_end(si) - sector_start(si)) as nat;
            let c = plain[sector_start(si)];
            assert(ps =~= repeated(c, n)) by {
                assert forall|i: int| 0 <= i < n implies ps[i] == c by {
                    assert(plain[sector_start(si) + i] == plain[sector_start(si)]);
                }
            }
            let base = ap_base_spec(pn, si, bv as int);
            assert(sector(raw, si) == fill_sector(base as int, steps[si] as int, ps));
            lemma_constant_best_step(base, steps[si], c, n);
            assert(ps[k - sector_start(si)] == plain[k]);
        }
    }
    assert(out =~= want);
}

} // verus!
