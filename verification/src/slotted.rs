//! Slotted-page directory parser.
//!
//! SA17 catalog and data pages use the classic slotted-page layout: a header
//! region at the start of the page, row bodies growing down from near the
//! page end, and a descending array of little-endian u16 row offsets that
//! points at each row body.
//!
//! Observed quirks: the slot array may start on either byte alignment, a
//! leading `0x0000` word may precede the first live offset, and deleted slots
//! appear as interior zero words.
use vstd::prelude::*;

use crate::bytes::{le_u16, read_u16_le};
use crate::page::{Page, PAGE_SIZE};

verus! {

/// Offset at which the page trailer begins; rows end there at the latest.
pub const TRAILER_START: usize = 0xFF0;

/// Slot directories are searched for below this offset.
pub const SEARCH_LIMIT: usize = 0x300;

/// Smallest plausible row offset.
pub const SLOT_OFFSET_MIN: u16 = 0x20;

/// Row offsets lie below the trailer.
pub const SLOT_OFFSET_MAX: u16 = 0xFF0;

/// A directory must hold at least this many live slots.
pub const MIN_LIVE_SLOTS: usize = 8;

// ---------------------------------------------------------------------------
// Specification
// ---------------------------------------------------------------------------

/// The non-zero (live) entries of a slot array, in array order.
pub open spec fn live_of(s: Seq<u16>) -> Seq<u16>
    decreases s.len(),
{
    if s.len() == 0 {
        Seq::empty()
    } else if s.last() != 0 {
        live_of(s.drop_last()).push(s.last())
    } else {
        live_of(s.drop_last())
    }
}

/// A plausible row offset: `0x20 <= v < 0xFF0`.
pub open spec fn is_slot_offset_spec(v: u16) -> bool {
    SLOT_OFFSET_MIN <= v < SLOT_OFFSET_MAX
}

/// The little-endian word at `pos` of the page.
pub open spec fn word(p: Seq<u8>, pos: int) -> u16 {
    le_u16(p, pos)
}

/// A leading zero sentinel at `start`: a zero word followed by a plausible
/// row offset, both below the search limit.
pub open spec fn has_leading_zero(p: Seq<u8>, start: int) -> bool {
    &&& start + 3 < SEARCH_LIMIT
    &&& word(p, start) == 0
    &&& is_slot_offset_spec(word(p, start + 2))
}

/// Where the slot array starts for a scan beginning at `start`.
pub open spec fn array_start_of(p: Seq<u8>, start: int) -> int {
    if has_leading_zero(p, start) {
        start + 2
    } else {
        start
    }
}

/// Where a scan that continues at `pos` stops, given the last live offset
/// `prev` and whether a live offset was seen. The scan goes on over a zero
/// word once a live offset was seen, and over any plausible offset below
/// the last live one; it stops at the first other word or at the search
/// limit.
pub open spec fn run_stop(p: Seq<u8>, pos: int, prev: int, seen: bool) -> int
    decreases SEARCH_LIMIT - pos,
{
    if pos + 1 < SEARCH_LIMIT {
        let v = word(p, pos);
        if v == 0 && seen {
            run_stop(p, pos + 2, prev, seen)
        } else if is_slot_offset_spec(v) && v < prev {
            run_stop(p, pos + 2, v as int, true)
        } else {
            pos
        }
    } else {
        pos
    }
}

/// The words of the page from `from` (inclusive) to `to` (exclusive).
pub open spec fn words_between(p: Seq<u8>, from: int, to: int) -> Seq<u16> {
    Seq::new(((to - from) / 2) as nat, |k: int| word(p, from + 2 * k))
}

/// One past the last live (non-zero) entry of `s`; 0 if there is none.
pub open spec fn live_end(s: Seq<u16>) -> int
    decreases s.len(),
{
    if s.len() == 0 {
        0
    } else if s.last() != 0 {
        s.len() as int
    } else {
        live_end(s.drop_last())
    }
}

/// The index of the first live entry of `s`; `s.len()` if there is none.
pub open spec fn first_live(s: Seq<u16>) -> int
    decreases s.len(),
{
    if s.len() == 0 {
        0
    } else if s[0] != 0 {
        0
    } else {
        1 + first_live(s.drop_first())
    }
}

/// The number of zero entries of `s`.
pub open spec fn zero_count(s: Seq<u16>) -> nat
    decreases s.len(),
{
    if s.len() == 0 {
        0
    } else {
        zero_count(s.drop_last()) + if s.last() == 0 {
            1nat
        } else {
            0nat
        }
    }
}

/// The deleted slots of `s`: its zero entries that lie strictly between two
/// live entries.
pub open spec fn interior_zeros(s: Seq<u16>) -> nat {
    if first_live(s) < live_end(s) {
        zero_count(s.subrange(first_live(s), live_end(s)))
    } else {
        0
    }
}

/// Mathematical view of a [`SlotDirectory`].
pub struct SlotDirectoryView {
    pub scan_start: int,
    pub array_start: int,
    pub end: int,
    pub slots: Seq<u16>,
    pub leading_zero: bool,
}

/// The directory that a scan from `start` finds: the words from the array
/// start to the last live entry the scan passes (zero words after it are
/// free space, not slots); `None` unless it holds at least
/// [`MIN_LIVE_SLOTS`] live slots.
pub open spec fn scan_spec(p: Seq<u8>, start: int) -> Option<SlotDirectoryView> {
    let a = array_start_of(p, start);
    let run = words_between(p, a, run_stop(p, a, 0x10000, false));
    let e = a + 2 * live_end(run);
    let slots = run.take(live_end(run));
    if live_of(slots).len() < MIN_LIVE_SLOTS {
        None
    } else {
        Some(
            SlotDirectoryView {
                scan_start: start,
                array_start: a,
                end: e,
                slots,
                leading_zero: has_leading_zero(p, start),
            },
        )
    }
}

/// Directory `a` is preferred to `b`: more live slots, or as many and a
/// longer array.
pub open spec fn better(a: SlotDirectoryView, b: SlotDirectoryView) -> bool {
    ||| live_of(a.slots).len() > live_of(b.slots).len()
    ||| (live_of(a.slots).len() == live_of(b.slots).len() && a.slots.len() > b.slots.len())
}

/// `d` is the directory that the search of the first `n` scan starts picks:
/// the preferred one, and of those equally good the one of the earliest
/// start.
pub open spec fn is_best_directory(p: Seq<u8>, n: int, d: SlotDirectoryView) -> bool {
    &&& 0 <= d.scan_start < n
    &&& scan_spec(p, d.scan_start) == Some(d)
    &&& forall|s: int|
        0 <= s < n && #[trigger] scan_spec(p, s) is Some ==> !better(scan_spec(p, s)->0, d)
    &&& forall|s: int|
        0 <= s < d.scan_start && #[trigger] scan_spec(p, s) is Some ==> better(
            d,
            scan_spec(p, s)->0,
        )
}

/// No scan start below `n` finds a directory.
pub open spec fn no_directory(p: Seq<u8>, n: int) -> bool {
    forall|s: int| 0 <= s < n ==> #[trigger] scan_spec(p, s) is None
}

/// The smallest of the offsets `live[0..n]` above `o`, if any.
pub open spec fn next_above(live: Seq<u16>, o: u16, n: int) -> Option<u16>
    decreases n,
{
    if n <= 0 {
        None
    } else {
        let r = next_above(live, o, n - 1);
        let x = live[n - 1];
        if x > o && (r is None || x < r->0) {
            Some(x)
        } else {
            r
        }
    }
}

/// Where the row at live offset `o` ends: at the smallest live offset above
/// it, or at the start of the trailer if there is none.
pub open spec fn row_end(live: Seq<u16>, o: u16) -> int {
    match next_above(live, o, live.len() as int) {
        Some(x) => x as int,
        None => TRAILER_START as int,
    }
}

/// The rows of the first `n` live offsets, in array order: each runs from
/// its offset to [`row_end`]; a row that would be empty or would run past
/// the trailer is left out.
pub open spec fn rows_upto(live: Seq<u16>, bytes: Seq<u8>, n: int) -> Seq<(u16, Seq<u8>)>
    decreases n,
{
    if n <= 0 {
        Seq::empty()
    } else {
        let prev = rows_upto(live, bytes, n - 1);
        let o = live[n - 1];
        let e = row_end(live, o);
        if o < e && e <= TRAILER_START {
            prev.push((o, bytes.subrange(o as int, e)))
        } else {
            prev
        }
    }
}

/// The rows of a page with the given live offsets, in array order.
pub open spec fn rows_spec(live: Seq<u16>, bytes: Seq<u8>) -> Seq<(u16, Seq<u8>)> {
    rows_upto(live, bytes, live.len() as int)
}

// ---------------------------------------------------------------------------
// Slot directory
// ---------------------------------------------------------------------------

/// Decoded slot directory.
#[derive(Debug, Clone)]
pub struct SlotDirectory {
    /// Byte offset at which scanning started (may be a sentinel).
    pub scan_start: usize,
    /// Byte offset of the first actual slot entry.
    pub array_start: usize,
    /// Byte offset immediately after the last slot entry.
    pub end: usize,
    /// All u16 slot entries, in array order. Zero entries represent deleted
    /// slots.
    pub slots: Vec<u16>,
    /// `true` iff a `0x0000` sentinel word preceded the array.
    pub leading_zero: bool,
}

impl View for SlotDirectory {
    type V = SlotDirectoryView;

    open spec fn view(&self) -> SlotDirectoryView {
        SlotDirectoryView {
            scan_start: self.scan_start as int,
            array_start: self.array_start as int,
            end: self.end as int,
            slots: self.slots@,
            leading_zero: self.leading_zero,
        }
    }
}

/// A slot array has no more live entries than entries.
proof fn lemma_live_len(s: Seq<u16>)
    ensures
        live_of(s).len() <= s.len(),
    decreases s.len(),
{
    if s.len() > 0 {
        lemma_live_len(s.drop_last());
    }
}

/// Number of live entries of `slots`.
fn count_live(slots: &Vec<u16>) -> (r: usize)
    ensures
        r == live_of(slots@).len(),
{
    let mut n: usize = 0;
    let mut i: usize = 0;
    while i < slots.len()
        invariant
            i <= slots@.len(),
            n == live_of(slots@.take(i as int)).len(),
        decreases slots@.len() - i,
    {
        proof {
            assert(slots@.take(i + 1).drop_last() =~= slots@.take(i as int));
            lemma_live_len(slots@.take(i as int));
        }
        if slots[i] != 0 {
            n += 1;
        }
        i += 1;
    }
    assert(slots@.take(slots@.len() as int) =~= slots@);
    n
}

impl SlotDirectory {
    /// Live (non-deleted) row offsets, in array order.
    pub fn live_slots(&self) -> (r: Vec<u16>)
        ensures
            r@ == live_of(self.slots@),
    {
        let mut out: Vec<u16> = Vec::new();
        let mut i: usize = 0;
        while i < self.slots.len()
            invariant
                i <= self.slots@.len(),
                out@ == live_of(self.slots@.take(i as int)),
            decreases self.slots@.len() - i,
        {
            proof {
                assert(self.slots@.take(i + 1).drop_last() =~= self.slots@.take(i as int));
            }
            if self.slots[i] != 0 {
                out.push(self.slots[i]);
            }
            i += 1;
        }
        assert(self.slots@.take(self.slots@.len() as int) =~= self.slots@);
        out
    }

    /// Number of live slots.
    pub fn live_count(&self) -> (r: usize)
        ensures
            r == live_of(self.slots@).len(),
    {
        count_live(&self.slots)
    }

    /// Number of deleted slots: the zero entries strictly between live
    /// entries. Zero words before the first or after the last live entry
    /// are not counted.
    pub fn deleted_count(&self) -> (r: usize)
        ensures
            r == interior_zeros(self.slots@),
    {
        let n = self.slots.len();
        let mut f: usize = 0;
        while f < n && self.slots[f] == 0
            invariant
                f <= n,
                n == self.slots@.len(),
                forall|j: int| 0 <= j < f ==> self.slots@[j] == 0,
            decreases n - f,
        {
            f += 1;
        }
        let mut e: usize = n;
        while e > 0 && self.slots[e - 1] == 0
            invariant
                e <= n,
                n == self.slots@.len(),
                forall|j: int| e <= j < n ==> self.slots@[j] == 0,
            decreases e,
        {
            e -= 1;
        }
        proof {
            lemma_first_live_at(self.slots@, f as int);
            lemma_live_end_at(self.slots@, e as int);
        }
        if f >= e {
            return 0;
        }
        let mut count: usize = 0;
        let mut k: usize = f;
        while k < e
            invariant
                f <= k <= e,
                e <= n,
                n == self.slots@.len(),
                count == zero_count(self.slots@.subrange(f as int, k as int)),
                count <= k - f,
            decreases e - k,
        {
            proof {
                assert(self.slots@.subrange(f as int, k + 1).drop_last() =~= self.slots@.subrange(
                    f as int,
                    k as int,
                ));
            }
            if self.slots[k] == 0 {
                count += 1;
            }
            k += 1;
        }
        count
    }

    /// Minimum live row offset, if any.
    pub fn min_offset(&self) -> (r: Option<u16>)
        ensures
            match r {
                Some(m) => live_of(self.slots@).contains(m) && forall|i: int|
                    0 <= i < live_of(self.slots@).len() ==> m <= #[trigger] live_of(
                        self.slots@,
                    )[i],
                None => live_of(self.slots@).len() == 0,
            },
    {
        let live = self.live_slots();
        if live.len() == 0 {
            return None;
        }
        let mut m = live[0];
        let mut k: usize = 0;
        let mut i: usize = 1;
        while i < live.len()
            invariant
                1 <= i <= live@.len(),
                k < i,
                m == live@[k as int],
                forall|j: int| 0 <= j < i ==> m <= #[trigger] live@[j],
            decreases live@.len() - i,
        {
            if live[i] < m {
                m = live[i];
                k = i;
            }
            i += 1;
        }
        Some(m)
    }
}


fn is_slot_offset(value: u16) -> (r: bool)
    ensures
        r == is_slot_offset_spec(value),
{
    SLOT_OFFSET_MIN <= value && value < SLOT_OFFSET_MAX
}

proof fn lemma_words_push(p: Seq<u8>, a: int, pos: int)
    requires
        a <= pos,
        (pos - a) % 2 == 0,
    ensures
        words_between(p, a, pos + 2) == words_between(p, a, pos).push(word(p, pos)),
{
    assert((pos + 2 - a) / 2 == (pos - a) / 2 + 1);
    assert(words_between(p, a, pos + 2) =~= words_between(p, a, pos).push(word(p, pos)));
}

/// Scans for a slot directory that starts at `start`.
fn scan_from(plain: &[u8], start: usize) -> (r: Option<SlotDirectory>)
    requires
        plain@.len() >= SEARCH_LIMIT,
        start < SEARCH_LIMIT,
    ensures
        match r {
            Some(d) => scan_spec(plain@, start as int) == Some(d@),
            None => scan_spec(plain@, start as int) is None,
        },
{
    let ghost p = plain@;
    let mut pos = start;
    let mut leading_zero = false;
    let mut slots: Vec<u16> = Vec::new();
    let mut prev: u32 = 0x10000;

    if pos + 3 < SEARCH_LIMIT && read_u16_le(plain, pos) == 0 && is_slot_offset(
        read_u16_le(plain, pos + 2),
    ) {
        leading_zero = true;
        pos += 2;
    }
    let array_start = pos;
    let mut seen_live = false;
    let mut kept: usize = 0;
    assert(slots@ =~= words_between(p, array_start as int, pos as int));

    while pos + 1 < SEARCH_LIMIT
        invariant
            plain@ == p,
            p.len() >= SEARCH_LIMIT,
            array_start == array_start_of(p, start as int),
            leading_zero == has_leading_zero(p, start as int),
            array_start <= pos <= SEARCH_LIMIT,
            (pos - array_start) % 2 == 0,
            slots@ == words_between(p, array_start as int, pos as int),
            kept == live_end(slots@),
            prev <= 0x10000,
            run_stop(p, pos as int, prev as int, seen_live) == run_stop(
                p,
                array_start as int,
                0x10000,
                false,
            ),
        ensures
            run_stop(p, pos as int, prev as int, seen_live) == pos,
            array_start <= pos <= SEARCH_LIMIT,
            slots@ == words_between(p, array_start as int, pos as int),
            kept == live_end(slots@),
        decreases SEARCH_LIMIT - pos,
    {
        let value = read_u16_le(plain, pos);
        if value == 0 && seen_live {
            proof {
                lemma_words_push(p, array_start as int, pos as int);
                assert(slots@.push(0).drop_last() =~= slots@);
            }
            slots.push(0);
            pos += 2;
        } else if is_slot_offset(value) && (value as u32) < prev {
            proof {
                lemma_words_push(p, array_start as int, pos as int);
            }
            slots.push(value);
            kept = slots.len();
            prev = value as u32;
            seen_live = true;
            pos += 2;
        } else {
            break;
        }
    }
    proof {
        let run = slots@;
        lemma_live_end_take(run);
        assert(words_between(p, array_start as int, array_start + 2 * kept) =~= run.take(
            kept as int,
        ));
    }
    slots.truncate(kept);
    let live_count = count_live(&slots);
    if live_count < MIN_LIVE_SLOTS {
        return None;
    }
    Some(
        SlotDirectory {
            scan_start: start,
            array_start,
            end: array_start + 2 * kept,
            slots,
            leading_zero,
        },
    )
}

/// The entries of `s` up to its last live one hold all its live entries.
proof fn lemma_live_end_take(s: Seq<u16>)
    ensures
        0 <= live_end(s) <= s.len(),
        live_of(s.take(live_end(s))) == live_of(s),
        live_end(s) > 0 ==> s[live_end(s) - 1] != 0,
    decreases s.len(),
{
    if s.len() > 0 {
        if s.last() != 0 {
            assert(s.take(s.len() as int) =~= s);
        } else {
            let t = s.drop_last();
            lemma_live_end_take(t);
            assert(t.take(live_end(t)) =~= s.take(live_end(s)));
        }
    }
}

/// Searches every start below [`SEARCH_LIMIT`] for the best slot directory.
fn find_slot_directory(plain: &[u8]) -> (r: Option<SlotDirectory>)
    requires
        plain@.len() >= SEARCH_LIMIT,
    ensures
        match r {
            Some(d) => is_best_directory(plain@, SEARCH_LIMIT as int, d@),
            None => no_directory(plain@, SEARCH_LIMIT as int),
        },
{
    let mut best: Option<SlotDirectory> = None;
    let mut start: usize = 0;
    while start < SEARCH_LIMIT
        invariant
            plain@.len() >= SEARCH_LIMIT,
            start <= SEARCH_LIMIT,
            match best {
                Some(b) => is_best_directory(plain@, start as int, b@),
                None => no_directory(plain@, start as int),
            },
        decreases SEARCH_LIMIT - start,
    {
        let cand = scan_from(plain, start);
        match cand {
            None => {
                proof {
                    if best is Some {
                        let b = best->0;
                        assert forall|s: int|
                            0 <= s < start + 1 && #[trigger] scan_spec(plain@, s) is Some implies !better(
                            scan_spec(plain@, s)->0,
                            b@,
                        ) by {
                            if s < start {
                            }
                        }
                    } else {
                        assert forall|s: int| 0 <= s < start + 1 implies #[trigger] scan_spec(
                            plain@,
                            s,
                        ) is None by {
                            if s < start {
                            }
                        }
                    }
                }
            },
            Some(c) => {
                let is_better = match &best {
                    None => true,
                    Some(b) => {
                        let cand_live = count_live(&c.slots);
                        let best_live = count_live(&b.slots);
                        cand_live > best_live || (cand_live == best_live && c.slots.len()
                            > b.slots.len())
                    },
                };
                if is_better {
                    proof {
                        assert forall|s: int|
                            0 <= s < start + 1 && #[trigger] scan_spec(plain@, s) is Some implies !better(
                            scan_spec(plain@, s)->0,
                            c@,
                        ) && (s < start ==> better(c@, scan_spec(plain@, s)->0)) by {
                            if s < start {
                            }
                        }
                    }
                    best = Some(c);
                } else {
                    proof {
                        let b = best->0;
                        assert forall|s: int|
                            0 <= s < start + 1 && #[trigger] scan_spec(plain@, s) is Some implies !better(
                            scan_spec(plain@, s)->0,
                            b@,
                        ) by {
                            if s < start {
                            }
                        }
                    }
                }
            },
        }
        start += 1;
    }
    best
}


/// A page that has been parsed for its slotted-directory layout.
#[derive(Debug, Clone)]
pub struct SlottedPage<'a> {
    /// The underlying page.
    pub page: Page<'a>,
    /// The directory, if one was found.
    pub directory: Option<SlotDirectory>,
}

impl<'a> SlottedPage<'a> {
    /// Scan `page` for a plausible descending slot directory. The page
    /// contents must already be plaintext (any obfuscation must be removed
    /// by the caller).
    pub fn parse(page: Page<'a>) -> (r: Self)
        ensures
            r.page == page,
            match r.directory {
                Some(d) => is_best_directory(page.spec_bytes(), SEARCH_LIMIT as int, d@),
                None => no_directory(page.spec_bytes(), SEARCH_LIMIT as int),
            },
    {
        let directory = find_slot_directory(page.bytes());
        SlottedPage { page, directory }
    }

    /// The raw row bytes for each live slot, in array order.
    ///
    /// A row runs from its offset to the smallest live offset above it, or
    /// to the start of the trailer if there is none; a row that would be
    /// empty or would run past the trailer is left out.
    pub fn row_bytes(&self) -> (r: Vec<(u16, &'a [u8])>)
        ensures
            match self.directory {
                Some(d) => r@.map_values(|e: (u16, &'a [u8])| (e.0, e.1@)) == rows_spec(
                    live_of(d.slots@),
                    self.page.spec_bytes(),
                ),
                None => r@.len() == 0,
            },
    {
        let dir = match &self.directory {
            Some(d) => d,
            None => return Vec::new(),
        };
        let bytes = self.page.bytes();
        let live = dir.live_slots();
        let ghost s = live@;
        let mut out: Vec<(u16, &'a [u8])> = Vec::new();
        let mut i: usize = 0;
        while i < live.len()
            invariant
                bytes@ == self.page.spec_bytes(),
                bytes@.len() == PAGE_SIZE,
                live@ == s,
                i <= s.len(),
                out@.map_values(|e: (u16, &'a [u8])| (e.0, e.1@)) == rows_upto(s, bytes@, i as int),
            decreases s.len() - i,
        {
            let off = live[i];
            let mut above: Option<u16> = None;
            let mut j: usize = 0;
            while j < live.len()
                invariant
                    live@ == s,
                    j <= s.len(),
                    above == next_above(s, off, j as int),
                decreases s.len() - j,
            {
                let x = live[j];
                let closer = match above {
                    None => true,
                    Some(a) => x < a,
                };
                if x > off && closer {
                    above = Some(x);
                }
                j += 1;
            }
            let start = off as usize;
            let end = match above {
                Some(x) => x as usize,
                None => TRAILER_START,
            };
            let ghost before = out@;
            if start < end && end <= TRAILER_START {
                out.push((off, &bytes[start..end]));
                proof {
                    assert(out@.map_values(|e: (u16, &'a [u8])| (e.0, e.1@)) =~= before.map_values(
                        |e: (u16, &'a [u8])| (e.0, e.1@),
                    ).push((off, bytes@.subrange(start as int, end as int))));
                }
            }
            i += 1;
        }
        out
    }

    /// The page-boundary overflow prefix, if present.
    ///
    /// When a record spans two pages its tail is written at
    /// `page[0x000..array_start)`, before the slot directory, where no slot
    /// points. Returns `Some(bytes)` when those bytes are not all zero, and
    /// `None` when there is no directory, the directory starts at offset 0,
    /// or the prefix is all zeros.
    pub fn overflow_prefix(&self) -> (r: Option<&'a [u8]>)
        requires
            self.directory matches Some(d) ==> d.array_start <= PAGE_SIZE,
        ensures
            match self.directory {
                Some(d) => {
                    let prefix = self.page.spec_bytes().subrange(0, d.array_start as int);
                    if d.array_start == 0 || forall|k: int| 0 <= k < prefix.len() ==> prefix[k] == 0 {
                        r is None
                    } else {
                        r matches Some(b) && b@ == prefix
                    }
                },
                None => r is None,
            },
    {
        let dir = match &self.directory {
            Some(d) => d,
            None => return None,
        };
        let end = dir.array_start;
        if end == 0 {
            return None;
        }
        let bytes = self.page.bytes();
        let prefix = &bytes[0..end];
        let mut k: usize = 0;
        while k < end
            invariant
                prefix@ == self.page.spec_bytes().subrange(0, end as int),
                end == prefix@.len(),
                self.directory is Some,
                end == self.directory->0.array_start,
                k <= end,
                forall|j: int| 0 <= j < k ==> prefix@[j] == 0,
            decreases end - k,
        {
            if prefix[k] != 0 {
                proof {
                    let pre = self.page.spec_bytes().subrange(0, end as int);
                    assert(pre[k as int] != 0);
                    assert(!(forall|j: int| 0 <= j < pre.len() ==> pre[j] == 0));
                }
                return Some(prefix);
            }
            k += 1;
        }
        None
    }
}


// ---------------------------------------------------------------------------
// Laws
// ---------------------------------------------------------------------------

/// The live entries of `w` are plausible row offsets below `prev` and
/// strictly descending; if no live entry was seen before, `w` starts with a
/// live entry.
pub open spec fn descending_run(w: Seq<u16>, prev: int, seen: bool) -> bool {
    &&& forall|i: int|
        0 <= i < w.len() && #[trigger] w[i] != 0 ==> is_slot_offset_spec(w[i]) && w[i] < prev
    &&& forall|i: int, j: int|
        0 <= i < j < w.len() && #[trigger] w[i] != 0 && #[trigger] w[j] != 0 ==> w[j] < w[i]
    &&& (!seen && w.len() > 0 ==> w[0] != 0)
}

proof fn lemma_words_prepend(p: Seq<u8>, pos: int, e: int)
    requires
        pos + 2 <= e,
        (e - pos) % 2 == 0,
    ensures
        words_between(p, pos, e) == seq![word(p, pos)] + words_between(p, pos + 2, e),
{
    assert((e - pos) / 2 == (e - pos - 2) / 2 + 1);
    assert forall|k: int| 1 <= k < (e - pos) / 2 implies words_between(p, pos, e)[k]
        == words_between(p, pos + 2, e)[k - 1] by {
        assert(pos + 2 * k == pos + 2 + 2 * (k - 1));
    }
    assert(words_between(p, pos, e) =~= seq![word(p, pos)] + words_between(p, pos + 2, e));
}

proof fn lemma_run(p: Seq<u8>, pos: int, prev: int, seen: bool)
    requires
        0 <= pos <= SEARCH_LIMIT,
    ensures
        pos <= run_stop(p, pos, prev, seen) <= SEARCH_LIMIT,
        (run_stop(p, pos, prev, seen) - pos) % 2 == 0,
        descending_run(words_between(p, pos, run_stop(p, pos, prev, seen)), prev, seen),
    decreases SEARCH_LIMIT - pos,
{
    let e = run_stop(p, pos, prev, seen);
    if pos + 1 < SEARCH_LIMIT {
        let v = word(p, pos);
        if v == 0 && seen {
            lemma_run(p, pos + 2, prev, seen);
            lemma_words_prepend(p, pos, e);
            let r = words_between(p, pos + 2, e);
            let w = words_between(p, pos, e);
            assert forall|i: int| 1 <= i < w.len() implies w[i] == r[i - 1] by {}
            assert(descending_run(w, prev, seen)) by {
                assert forall|i: int, j: int|
                    0 <= i < j < w.len() && #[trigger] w[i] != 0 && #[trigger] w[j] != 0 implies w[j]
                    < w[i] by {
                    assert(w[i] == r[i - 1] && w[j] == r[j - 1]);
                }
                assert forall|i: int| 0 <= i < w.len() && #[trigger] w[i] != 0 implies is_slot_offset_spec(w[i])
                    && w[i] < prev by {
                    assert(w[i] == r[i - 1]);
                }
            }
        } else if is_slot_offset_spec(v) && v < prev {
            lemma_run(p, pos + 2, v as int, true);
            lemma_words_prepend(p, pos, e);
            let r = words_between(p, pos + 2, e);
            let w = words_between(p, pos, e);
            assert forall|i: int| 1 <= i < w.len() implies w[i] == r[i - 1] by {}
            assert(descending_run(w, prev, seen)) by {
                assert forall|i: int, j: int|
                    0 <= i < j < w.len() && #[trigger] w[i] != 0 && #[trigger] w[j] != 0 implies w[j]
                    < w[i] by {
                    assert(w[j] == r[j - 1]);
                    if i > 0 {
                        assert(w[i] == r[i - 1]);
                    }
                }
                assert forall|i: int| 0 <= i < w.len() && #[trigger] w[i] != 0 implies is_slot_offset_spec(w[i])
                    && w[i] < prev by {
                    if i > 0 {
                        assert(w[i] == r[i - 1]);
                    }
                }
            }
        } else {
            assert(words_between(p, pos, e) =~= Seq::<u16>::empty());
        }
    } else {
        assert(words_between(p, pos, e) =~= Seq::<u16>::empty());
    }
}

/// A directory found from any start is a slot array: it begins at the start
/// or just after a zero sentinel there, holds exactly the words between its
/// start and end (below the search limit), begins and ends with a live
/// entry, holds at least [`MIN_LIVE_SLOTS`] live entries, and its live
/// entries are plausible row offsets in strictly descending order.
pub proof fn lemma_directory_shape(p: Seq<u8>, start: int)
    requires
        0 <= start < SEARCH_LIMIT,
        scan_spec(p, start) is Some,
    ensures
        ({
            let d = scan_spec(p, start)->0;
            &&& d.scan_start == start
            &&& d.array_start == start || (d.array_start == start + 2 && d.leading_zero)
            &&& d.array_start <= d.end <= SEARCH_LIMIT
            &&& d.end - d.array_start == 2 * d.slots.len()
            &&& d.slots == words_between(p, d.array_start, d.end)
            &&& d.slots.len() > 0 && d.slots[0] != 0 && d.slots.last() != 0
            &&& live_of(d.slots).len() >= MIN_LIVE_SLOTS
            &&& descending_run(d.slots, 0x10000, false)
        }),
{
    let a = array_start_of(p, start);
    lemma_run(p, a, 0x10000, false);
    let stop = run_stop(p, a, 0x10000, false);
    let run = words_between(p, a, stop);
    lemma_live_end_take(run);
    let k = live_end(run);
    let d = scan_spec(p, start)->0;
    assert(d.slots == run.take(k));
    lemma_live_len(d.slots);
    assert(k > 0);
    assert(words_between(p, a, a + 2 * k) =~= run.take(k));
    assert(d.slots[0] == run[0]);
    assert(d.slots.last() == run[k - 1]);
    assert forall|i: int| 0 <= i < d.slots.len() implies d.slots[i] == run[i] by {}
}

proof fn lemma_first_live_at(s: Seq<u16>, f: int)
    requires
        0 <= f <= s.len(),
        forall|j: int| 0 <= j < f ==> s[j] == 0,
        f == s.len() || s[f] != 0,
    ensures
        first_live(s) == f,
    decreases f,
{
    if f > 0 {
        let t = s.drop_first();
        assert forall|j: int| 0 <= j < f - 1 implies t[j] == 0 by {
            assert(t[j] == s[j + 1]);
        }
        if f < s.len() {
            assert(t[f - 1] == s[f]);
        }
        lemma_first_live_at(t, f - 1);
        assert(s[0] == 0);
    }
}

proof fn lemma_live_end_at(s: Seq<u16>, e: int)
    requires
        0 <= e <= s.len(),
        forall|j: int| e <= j < s.len() ==> s[j] == 0,
        e == 0 || s[e - 1] != 0,
    ensures
        live_end(s) == e,
    decreases s.len(),
{
    if s.len() > 0 && e < s.len() {
        let t = s.drop_last();
        assert(s.last() == s[s.len() - 1]);
        if e > 0 {
            assert(t[e - 1] == s[e - 1]);
        }
        lemma_live_end_at(t, e);
    }
}

proof fn lemma_zero_live(s: Seq<u16>)
    ensures
        zero_count(s) + live_of(s).len() == s.len(),
    decreases s.len(),
{
    if s.len() > 0 {
        lemma_zero_live(s.drop_last());
    }
}

/// Every slot of a directory that the scan finds is live or deleted: its
/// live entries and the zero entries between them make up all its slots.
pub proof fn lemma_live_deleted_partition(p: Seq<u8>, start: int)
    requires
        0 <= start < SEARCH_LIMIT,
        scan_spec(p, start) is Some,
    ensures
        live_of(scan_spec(p, start)->0.slots).len() + interior_zeros(scan_spec(p, start)->0.slots)
            == scan_spec(p, start)->0.slots.len(),
{
    lemma_directory_shape(p, start);
    let s = scan_spec(p, start)->0.slots;
    lemma_first_live_at(s, 0);
    lemma_live_end_at(s, s.len() as int);
    assert(s.subrange(0, s.len() as int) =~= s);
    lemma_zero_live(s);
}

/// The rows are non-empty slices of the page body below the trailer, each
/// at its own offset, and rows at different offsets do not overlap: a row
/// ends at or before the start of every row at a higher offset.
pub open spec fn rows_well_placed(rows: Seq<(u16, Seq<u8>)>, bytes: Seq<u8>) -> bool {
    &&& forall|k: int|
        0 <= k < rows.len() ==> {
            &&& 0 < (#[trigger] rows[k]).1.len()
            &&& rows[k].0 + rows[k].1.len() <= TRAILER_START
            &&& rows[k].1 == bytes.subrange(rows[k].0 as int, rows[k].0 + rows[k].1.len())
        }
    &&& forall|k1: int, k2: int|
        0 <= k1 < rows.len() && 0 <= k2 < rows.len() && #[trigger] rows[k1].0 < #[trigger] rows[k2].0
            ==> rows[k1].0 + rows[k1].1.len() <= rows[k2].0
}

proof fn lemma_next_above(live: Seq<u16>, o: u16, n: int)
    requires
        0 <= n <= live.len(),
    ensures
        match next_above(live, o, n) {
            Some(x) => x > o && (exists|i: int| 0 <= i < n && live[i] == x) && forall|i: int|
                0 <= i < n && live[i] > o ==> x <= live[i],
            None => forall|i: int| 0 <= i < n ==> live[i] <= o,
        },
    decreases n,
{
    if n > 0 {
        lemma_next_above(live, o, n - 1);
    }
}

proof fn lemma_rows_upto(live: Seq<u16>, bytes: Seq<u8>, n: int)
    requires
        0 <= n <= live.len(),
        bytes.len() >= TRAILER_START,
    ensures
        forall|k: int|
            0 <= k < rows_upto(live, bytes, n).len() ==> {
                &&& #[trigger] rows_upto(live, bytes, n)[k].0 < row_end(live, rows_upto(live, bytes, n)[k].0)
                &&& row_end(live, rows_upto(live, bytes, n)[k].0) <= TRAILER_START
                &&& rows_upto(live, bytes, n)[k].1 == bytes.subrange(
                    rows_upto(live, bytes, n)[k].0 as int,
                    row_end(live, rows_upto(live, bytes, n)[k].0),
                )
                &&& live.contains(rows_upto(live, bytes, n)[k].0)
            },
    decreases n,
{
    if n > 0 {
        lemma_rows_upto(live, bytes, n - 1);
        let prev = rows_upto(live, bytes, n - 1);
        let cur = rows_upto(live, bytes, n);
        let o = live[n - 1];
        let e = row_end(live, o);
        if o < e && e <= TRAILER_START {
            assert forall|k: int| 0 <= k < cur.len() implies {
                &&& #[trigger] cur[k].0 < row_end(live, cur[k].0)
                &&& row_end(live, cur[k].0) <= TRAILER_START
                &&& cur[k].1 == bytes.subrange(cur[k].0 as int, row_end(live, cur[k].0))
                &&& live.contains(cur[k].0)
            } by {
                if k < prev.len() {
                    assert(cur[k] == prev[k]);
                } else {
                    assert(live[n - 1] == o);
                }
            }
        }
    }
}

/// The rows of a page are non-empty slices of its body below the trailer,
/// and rows at different offsets do not overlap.
pub proof fn lemma_rows_well_placed(live: Seq<u16>, bytes: Seq<u8>)
    requires
        bytes.len() >= TRAILER_START,
    ensures
        rows_well_placed(rows_spec(live, bytes), bytes),
{
    let rows = rows_spec(live, bytes);
    lemma_rows_upto(live, bytes, live.len() as int);
    assert forall|k: int| 0 <= k < rows.len() implies {
        &&& 0 < (#[trigger] rows[k]).1.len()
        &&& rows[k].0 + rows[k].1.len() <= TRAILER_START
        &&& rows[k].1 == bytes.subrange(rows[k].0 as int, rows[k].0 + rows[k].1.len())
    } by {
        assert(rows[k].1.len() == row_end(live, rows[k].0) - rows[k].0);
    }
    assert forall|k1: int, k2: int|
        0 <= k1 < rows.len() && 0 <= k2 < rows.len() && #[trigger] rows[k1].0 < #[trigger] rows[k2].0
            implies rows[k1].0 + rows[k1].1.len() <= rows[k2].0 by {
        let o1 = rows[k1].0;
        let o2 = rows[k2].0;
        lemma_next_above(live, o1, live.len() as int);
        assert(live.contains(o2));
        let i2 = choose|i: int| 0 <= i < live.len() && live[i] == o2;
        assert(live[i2] > o1);
        assert(rows[k1].1.len() == row_end(live, o1) - o1);
    }
}

/// The `n` words from offset `s` of the page are plausible row offsets in
/// strictly descending order, all read below the search limit.
pub open spec fn descending_offsets_at(p: Seq<u8>, s: int, n: int) -> bool {
    &&& 0 <= s
    &&& s + 2 * n <= SEARCH_LIMIT
    &&& forall|k: int| 0 <= k < n ==> is_slot_offset_spec(#[trigger] word(p, s + 2 * k))
    &&& forall|k: int, l: int| 0 <= k < l < n ==> #[trigger] word(p, s + 2 * l) < #[trigger] word(p, s + 2 * k)
}

proof fn lemma_run_through(p: Seq<u8>, pos: int, prev: int, seen: bool, m: int)
    requires
        0 <= m,
        0 <= pos,
        descending_offsets_at(p, pos, m),
        m > 0 ==> word(p, pos) < prev,
    ensures
        pos + 2 * m <= run_stop(p, pos, prev, seen),
        forall|k: int|
            0 <= k < m ==> #[trigger] words_between(p, pos, run_stop(p, pos, prev, seen))[k] == word(
                p,
                pos + 2 * k,
            ),
    decreases m,
{
    lemma_run(p, pos, prev, seen);
    if m > 0 {
        let v = word(p, pos);
        assert(word(p, pos + 2 * 0) == v);
        assert(is_slot_offset_spec(v));
        assert forall|k: int| 0 <= k < m - 1 implies is_slot_offset_spec(
            #[trigger] word(p, pos + 2 + 2 * k),
        ) by {
            assert(pos + 2 + 2 * k == pos + 2 * (k + 1));
        }
        assert forall|k: int, l: int| 0 <= k < l < m - 1 implies #[trigger] word(
            p,
            pos + 2 + 2 * l,
        ) < #[trigger] word(p, pos + 2 + 2 * k) by {
            assert(pos + 2 + 2 * l == pos + 2 * (l + 1));
            assert(pos + 2 + 2 * k == pos + 2 * (k + 1));
        }
        if m > 1 {
            assert(word(p, pos + 2 + 2 * 0) == word(p, pos + 2 * 1));
            assert(word(p, pos + 2 * 1) < word(p, pos + 2 * 0));
        }
        lemma_run_through(p, pos + 2, v as int, true, m - 1);
        let e = run_stop(p, pos, prev, seen);
        assert(e == run_stop(p, pos + 2, v as int, true));
        lemma_run(p, pos + 2, v as int, true);
        lemma_words_prepend(p, pos, e);
        assert forall|k: int| 0 <= k < m implies #[trigger] words_between(p, pos, e)[k] == word(
            p,
            pos + 2 * k,
        ) by {
            if k > 0 {
                assert(words_between(p, pos, e)[k] == words_between(p, pos + 2, e)[k - 1]);
                assert(pos + 2 + 2 * (k - 1) == pos + 2 * k);
            }
        }
    }
}

proof fn lemma_live_prefix(s: Seq<u16>, m: int)
    requires
        0 <= m <= s.len(),
        forall|k: int| 0 <= k < m ==> s[k] != 0,
    ensures
        live_of(s).len() >= m,
        m > 0 ==> live_end(s) >= m,
    decreases s.len(),
{
    if s.len() > 0 {
        if s.len() == m {
            lemma_live_prefix(s.drop_last(), m - 1);
        } else {
            lemma_live_prefix(s.drop_last(), m);
        }
    }
}

/// A slot array is found wherever it starts, at an odd or an even offset:
/// if the `n >= MIN_LIVE_SLOTS` words from any start `s` below the search
/// limit are plausible row offsets in strictly descending order, the scan
/// from `s` finds a directory that begins there with those words and has
/// at least `n` live slots; the page then has a directory, and the one
/// that the search picks has at least `n` live slots too.
pub proof fn lemma_scan_finds_descending_run(p: Seq<u8>, s: int, n: int)
    requires
        0 <= s < SEARCH_LIMIT,
        n >= MIN_LIVE_SLOTS,
        descending_offsets_at(p, s, n),
    ensures
        scan_spec(p, s) is Some,
        scan_spec(p, s)->0.array_start == s,
        forall|k: int| 0 <= k < n ==> #[trigger] scan_spec(p, s)->0.slots[k] == word(p, s + 2 * k),
        live_of(scan_spec(p, s)->0.slots).len() >= n,
        !no_directory(p, SEARCH_LIMIT as int),
        forall|d: SlotDirectoryView|
            #[trigger] is_best_directory(p, SEARCH_LIMIT as int, d) ==> live_of(d.slots).len() >= n,
{
    assert(word(p, s + 2 * 0) == word(p, s));
    assert(!has_leading_zero(p, s));
    let stop = run_stop(p, s, 0x10000, false);
    lemma_run_through(p, s, 0x10000, false, n);
    lemma_run(p, s, 0x10000, false);
    let run = words_between(p, s, stop);
    assert forall|k: int| 0 <= k < n implies run[k] != 0 by {
        assert(run[k] == word(p, s + 2 * k));
        assert(is_slot_offset_spec(word(p, s + 2 * k)));
    }
    lemma_live_prefix(run, n);
    lemma_live_end_take(run);
    let d = scan_spec(p, s)->0;
    assert forall|k: int| 0 <= k < n implies #[trigger] d.slots[k] == word(p, s + 2 * k) by {
        assert(d.slots[k] == run[k]);
    }
    assert(scan_spec(p, s) is Some);
}

} // verus!
