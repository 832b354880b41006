//! Byte-level arithmetic of the additive-progression (AP) fill.
//!
//! An obfuscated sector stores `stored[i] = (fill(i) + plain[i]) mod 256`
//! with `fill(i) = (base + i * step) mod 256`. This module recovers `base` and
//! `step` from a sector by histogram peaks and removes the fill again.
use vstd::arithmetic::div_mod::{
    lemma_fundamental_div_mod, lemma_mod_multiples_vanish, lemma_mul_mod_noop_left,
};
use vstd::prelude::*;

verus! {

// ---------------------------------------------------------------------------
// Specification
// ---------------------------------------------------------------------------

/// `x` reduced modulo 256, as a byte.
pub open spec fn byte(x: int) -> u8 {
    (x % 256) as u8
}

/// The fill base of sector `si` of page `pn` under calibration byte `bv`:
/// `(bv + pn + si - 4 * ((pn % 16) / 2)) mod 256`.
pub open spec fn ap_base_spec(pn: int, si: int, bv: int) -> u8 {
    byte(bv + pn + si - 4 * ((pn % 16) / 2))
}

/// Number of positions `i < n` with `keys[i] == v`.
pub open spec fn key_count(keys: Seq<u8>, v: int, n: int) -> nat
    decreases n,
{
    if n <= 0 {
        0
    } else {
        key_count(keys, v, n - 1) + if keys[n - 1] as int == v {
            1nat
        } else {
            0nat
        }
    }
}

/// The 256-bucket histogram of the byte values in `keys`.
pub open spec fn hist_of(keys: Seq<u8>) -> Seq<int> {
    Seq::new(256, |v: int| key_count(keys, v, keys.len() as int) as int)
}

/// A sequence of `u32` read as integers.
pub open spec fn ints(h: Seq<u32>) -> Seq<int> {
    h.map_values(|x: u32| x as int)
}

/// `r` is the last position at which `h` takes its greatest value: nothing
/// in `h` is greater than `h[r]`, and everything after `r` is smaller.
pub open spec fn is_last_argmax(h: Seq<int>, r: int) -> bool {
    &&& 0 <= r < h.len()
    &&& forall|j: int| 0 <= j < h.len() ==> #[trigger] h[j] <= h[r]
    &&& forall|j: int| r < j < h.len() ==> #[trigger] h[j] < h[r]
}

/// The last position of the greatest value of `h`.
pub open spec fn last_argmax(h: Seq<int>) -> int {
    choose|r: int| is_last_argmax(h, r)
}

/// The greatest of `h[0..n]`, or 0 for `n == 0`.
pub open spec fn max_upto(h: Seq<int>, n: int) -> int
    decreases n,
{
    if n <= 0 {
        0
    } else {
        let m = max_upto(h, n - 1);
        if h[n - 1] > m {
            h[n - 1]
        } else {
            m
        }
    }
}

/// Differences `sec[i + 1] - sec[i] (mod 256)` of adjacent bytes.
pub open spec fn diff_keys(sec: Seq<u8>) -> Seq<u8> {
    Seq::new(
        if sec.len() == 0 {
            0
        } else {
            (sec.len() - 1) as nat
        },
        |i: int| byte(sec[i + 1] - sec[i]),
    )
}

/// The base that would make position `i` a fill hit: `sec[i] - i * step`.
pub open spec fn base_keys(sec: Seq<u8>, step: int) -> Seq<u8> {
    Seq::new(sec.len(), |i: int| byte(sec[i] - i * step))
}

/// The sector with the fill `(base + i * step) mod 256` removed.
pub open spec fn plain_keys(sec: Seq<u8>, base: int, step: int) -> Seq<u8> {
    Seq::new(sec.len(), |i: int| byte(sec[i] - base - i * step))
}

/// The height of the highest histogram bucket of the sector with the fill
/// `(base, step)` removed.
pub open spec fn peak(sec: Seq<u8>, base: int, step: int) -> int {
    max_upto(hist_of(plain_keys(sec, base, step)), 256)
}

/// Among the steps below `k`, the first one with the greatest peak, and that
/// peak; `(0, 0)` while no step has a positive peak.
pub open spec fn best_step_upto(sec: Seq<u8>, base: int, k: int) -> (int, int)
    decreases k,
{
    if k <= 0 {
        (0, 0)
    } else {
        let prev = best_step_upto(sec, base, k - 1);
        let p = peak(sec, base, k - 1);
        if p > prev.1 {
            (k - 1, p)
        } else {
            prev
        }
    }
}

/// The step that `recover_step_peak` finds for `sec` under `base`, and its
/// peak.
pub open spec fn best_step(sec: Seq<u8>, base: int) -> (int, int) {
    best_step_upto(sec, base, 256)
}

/// The most common adjacent difference of `sec` (the last of equally common
/// ones).
pub open spec fn dominant_step_spec(sec: Seq<u8>) -> int {
    last_argmax(hist_of(diff_keys(sec)))
}

/// The most common base candidate of `sec` under `step` (the last of equally
/// common ones).
pub open spec fn recover_base_spec(sec: Seq<u8>, step: int) -> int {
    last_argmax(hist_of(base_keys(sec, step)))
}

/// Number of bytes of `sec` that equal the fill `(base + i * step) mod 256`.
pub open spec fn hits_spec(sec: Seq<u8>, base: int, step: int) -> int {
    key_count(plain_keys(sec, base, step), 0, sec.len() as int) as int
}

// ---------------------------------------------------------------------------
// Lemmas
// ---------------------------------------------------------------------------

/// Adding a multiple of 256 does not change a byte.
pub(crate) proof fn lemma_byte_shift(y: int, k: int)
    ensures
        byte(y + 256 * k) == byte(y),
{
    lemma_mod_multiples_vanish(k, y, 256);
}

/// Reducing `i * s` modulo 256 first, and adding a multiple of 256, does not
/// change the byte `c - i * s`.
proof fn lemma_byte_sub_mul(c: int, i: int, s: int, k: int)
    ensures
        byte(c + 256 * k - ((i % 256) * s) % 256) == byte(c - i * s),
{
    let t = i * s;
    lemma_mul_mod_noop_left(i, s, 256);
    lemma_fundamental_div_mod(t, 256);
    assert(c + 256 * k - t % 256 == (c - t) + 256 * (k + t / 256));
    lemma_byte_shift(c - t, k + t / 256);
}

pub(crate) proof fn lemma_key_count_bound(keys: Seq<u8>, v: int, n: int)
    requires
        0 <= n,
    ensures
        key_count(keys, v, n) <= n,
    decreases n,
{
    if n > 0 {
        lemma_key_count_bound(keys, v, n - 1);
    }
}

/// A last argmax exists for every non-empty sequence, and it is unique.
pub(crate) proof fn lemma_last_argmax(h: Seq<int>, r: int)
    requires
        h.len() > 0,
    ensures
        is_last_argmax(h, last_argmax(h)),
        is_last_argmax(h, r) ==> r == last_argmax(h),
{
    let w = witness_last_argmax(h, h.len() as int);
    assert(is_last_argmax(h, w));
    let a = last_argmax(h);
    if is_last_argmax(h, r) {
        if r < a {
            assert(h[a] < h[r]);
            assert(h[a] <= h[a]);
        } else if r > a {
            assert(h[r] < h[a]);
        }
    }
}

/// The last argmax of `h[0..n]`.
proof fn witness_last_argmax(h: Seq<int>, n: int) -> (r: int)
    requires
        0 < n <= h.len(),
    ensures
        0 <= r < n,
        forall|j: int| 0 <= j < n ==> #[trigger] h[j] <= h[r],
        forall|j: int| r < j < n ==> #[trigger] h[j] < h[r],
    decreases n,
{
    if n == 1 {
        0
    } else {
        let r0 = witness_last_argmax(h, n - 1);
        if h[n - 1] >= h[r0] {
            n - 1
        } else {
            r0
        }
    }
}

// ---------------------------------------------------------------------------
// Histograms
// ---------------------------------------------------------------------------

/// The 256-bucket histogram of the byte values in `keys`.
pub(crate) fn histogram(keys: &Vec<u8>) -> (h: Vec<u32>)
    requires
        keys@.len() <= u32::MAX,
    ensures
        h@.len() == 256,
        ints(h@) == hist_of(keys@),
{
    let mut h: Vec<u32> = vec![0u32; 256];
    let mut i: usize = 0;
    while i < keys.len()
        invariant
            i <= keys@.len() <= u32::MAX,
            h@.len() == 256,
            forall|v: int| 0 <= v < 256 ==> #[trigger] h@[v] == key_count(keys@, v, i as int),
        decreases keys@.len() - i,
    {
        let k = keys[i] as usize;
        proof {
            lemma_key_count_bound(keys@, k as int, i as int);
        }
        h.set(k, h[k] + 1);
        i += 1;
    }
    assert(ints(h@) =~= hist_of(keys@));
    h
}

/// The last position of the greatest value of `h`.
pub(crate) fn argmax_last(h: &Vec<u32>) -> (r: usize)
    requires
        h@.len() > 0,
    ensures
        is_last_argmax(ints(h@), r as int),
{
    let mut best: usize = 0;
    let mut i: usize = 1;
    while i < h.len()
        invariant
            1 <= i <= h@.len(),
            best < i,
            forall|j: int| 0 <= j < i ==> #[trigger] h@[j] <= h@[best as int],
            forall|j: int| best < j < i ==> #[trigger] h@[j] < h@[best as int],
        decreases h@.len() - i,
    {
        if h[i] >= h[best] {
            best = i;
        }
        i += 1;
    }
    best
}

/// The greatest value of `h` (0 if `h` is empty).
pub(crate) fn max_value(h: &Vec<u32>) -> (r: u32)
    ensures
        r == max_upto(ints(h@), h@.len() as int),
{
    let mut m: u32 = 0;
    let mut i: usize = 0;
    while i < h.len()
        invariant
            i <= h@.len(),
            m == max_upto(ints(h@), i as int),
        decreases h@.len() - i,
    {
        if h[i] > m {
            m = h[i];
        }
        i += 1;
    }
    m
}

// ---------------------------------------------------------------------------
// Keys
// ---------------------------------------------------------------------------

/// `((i mod 256) * step) mod 256`, which is `(i * step) mod 256`.
fn mul_mod(i: usize, step: u8) -> (r: u32)
    ensures
        r == ((i % 256) * step) % 256,
        r < 256,
{
    let a = (i % 256) as u32;
    assert(a * step <= 255 * 255) by (nonlinear_arith)
        requires
            a <= 255,
            step <= 255,
    ;
    (a * step as u32) % 256
}

fn diff_keys_exec(sec: &[u8]) -> (r: Vec<u8>)
    ensures
        r@ == diff_keys(sec@),
{
    let mut r: Vec<u8> = Vec::new();
    if sec.len() == 0 {
        assert(r@ =~= diff_keys(sec@));
        return r;
    }
    let n = sec.len();
    let mut i: usize = 0;
    while i + 1 < n
        invariant
            n == sec@.len(),
            sec@.len() > 0,
            i <= sec@.len() - 1,
            r@ == diff_keys(sec@).take(i as int),
        decreases sec@.len() - i,
    {
        let d = ((sec[i + 1] as u32 + 256 - sec[i] as u32) % 256) as u8;
        proof {
            lemma_byte_shift(sec@[i + 1] - sec@[i as int], 1);
            assert(diff_keys(sec@).take(i + 1) =~= diff_keys(sec@).take(i as int).push(d));
        }
        r.push(d);
        i += 1;
    }
    assert(r@ =~= diff_keys(sec@));
    r
}

fn base_keys_exec(sec: &[u8], step: u8) -> (r: Vec<u8>)
    ensures
        r@ == base_keys(sec@, step as int),
{
    let mut r: Vec<u8> = Vec::new();
    let mut i: usize = 0;
    while i < sec.len()
        invariant
            i <= sec@.len(),
            r@ == base_keys(sec@, step as int).take(i as int),
        decreases sec@.len() - i,
    {
        let im = mul_mod(i, step);
        let c = ((sec[i] as u32 + 256 - im) % 256) as u8;
        proof {
            lemma_byte_sub_mul(sec@[i as int] as int, i as int, step as int, 1);
            assert(base_keys(sec@, step as int).take(i + 1) =~= base_keys(sec@, step as int).take(
                i as int,
            ).push(c));
        }
        r.push(c);
        i += 1;
    }
    assert(r@ =~= base_keys(sec@, step as int));
    r
}

/// The byte `(stored - base - i * step) mod 256`.
pub(crate) fn unfill_byte(stored: u8, base: u8, i: usize, step: u8) -> (r: u8)
    ensures
        r == byte(stored - base - i * step),
{
    let im = mul_mod(i, step);
    proof {
        lemma_byte_sub_mul(stored - base, i as int, step as int, 2);
    }
    ((stored as u32 + 512 - base as u32 - im) % 256) as u8
}

pub(crate) fn plain_keys_exec(sec: &[u8], base: u8, step: u8) -> (r: Vec<u8>)
    ensures
        r@ == plain_keys(sec@, base as int, step as int),
{
    let mut r: Vec<u8> = Vec::new();
    let mut i: usize = 0;
    while i < sec.len()
        invariant
            i <= sec@.len(),
            r@ == plain_keys(sec@, base as int, step as int).take(i as int),
        decreases sec@.len() - i,
    {
        let c = unfill_byte(sec[i], base, i, step);
        proof {
            assert(plain_keys(sec@, base as int, step as int).take(i + 1) =~= plain_keys(
                sec@,
                base as int,
                step as int,
            ).take(i as int).push(c));
        }
        r.push(c);
        i += 1;
    }
    assert(r@ =~= plain_keys(sec@, base as int, step as int));
    r
}


// ---------------------------------------------------------------------------
// Sector operations
// ---------------------------------------------------------------------------

/// Compute the fill base `(bv + pn + si - 4 * floor((pn % 16) / 2)) mod 256`.
pub fn ap_base(pn: u64, si: usize, bv: u8) -> (r: u8)
    ensures
        r == ap_base_spec(pn as int, si as int, bv as int),
{
    let p16 = (pn % 16) as u32;
    let offset = p16 / 2 * 4;
    let x = bv as u32 + (pn % 256) as u32 + (si % 256) as u32 + 256 - offset;
    proof {
        let y = bv + pn + si - 4 * ((pn % 16) / 2);
        lemma_fundamental_div_mod(pn as int, 256);
        lemma_fundamental_div_mod(si as int, 256);
        assert(x == y + 256 * (1 - pn / 256 - si / 256));
        lemma_byte_shift(y, 1 - pn / 256 - si / 256);
    }
    (x % 256) as u8
}

/// The dominant adjacent-byte difference of `sec`: the most likely `step`
/// when the sector is a pure AP sequence. Of equally common differences the
/// greatest is returned; a sector of fewer than two bytes yields 255.
pub fn dominant_step(sec: &[u8]) -> (r: u8)
    requires
        sec@.len() <= u32::MAX,
    ensures
        r == dominant_step_spec(sec@),
{
    let keys = diff_keys_exec(sec);
    let h = histogram(&keys);
    let r = argmax_last(&h);
    proof {
        lemma_last_argmax(hist_of(diff_keys(sec@)), r as int);
    }
    r as u8
}

/// The `base` that maximises hits of `(base + i * step) mod 256 == sec[i]`:
/// the most common value of `sec[i] - i * step` (the greatest of equally
/// common ones).
pub fn recover_base(sec: &[u8], step: u8) -> (r: u8)
    requires
        sec@.len() <= u32::MAX,
    ensures
        r == recover_base_spec(sec@, step as int),
{
    let keys = base_keys_exec(sec, step);
    let h = histogram(&keys);
    let r = argmax_last(&h);
    proof {
        lemma_last_argmax(hist_of(base_keys(sec@, step as int)), r as int);
    }
    r as u8
}

/// Number of bytes of `sec` that the AP prediction `(base + i * step) mod
/// 256` matches.
pub fn sector_hits(sec: &[u8], base: u8, step: u8) -> (r: usize)
    requires
        sec@.len() <= u32::MAX,
    ensures
        r == hits_spec(sec@, base as int, step as int),
{
    let keys = plain_keys_exec(sec, base, step);
    let h = histogram(&keys);
    proof {
        assert(ints(h@)[0] == h@[0] as int);
    }
    h[0] as usize
}

/// The `step` that maximises the peak of the plaintext histogram of `sec`
/// under `base`, and that peak. Of equally high peaks the first step is
/// kept.
pub fn recover_step_peak(sec: &[u8], base: u8) -> (r: (u8, usize))
    requires
        sec@.len() <= u32::MAX,
    ensures
        r.0 as int == best_step(sec@, base as int).0,
        r.1 as int == best_step(sec@, base as int).1,
{
    let mut best_step: u8 = 0;
    let mut best_count: u32 = 0;
    let mut s: u32 = 0;
    while s < 256
        invariant
            s <= 256,
            sec@.len() <= u32::MAX,
            best_step as int == best_step_upto(sec@, base as int, s as int).0,
            best_count as int == best_step_upto(sec@, base as int, s as int).1,
        decreases 256 - s,
    {
        let keys = plain_keys_exec(sec, base, s as u8);
        let h = histogram(&keys);
        let p = max_value(&h);
        if p > best_count {
            best_count = p;
            best_step = s as u8;
        }
        s += 1;
    }
    (best_step, best_count as usize)
}

/// Remove the fill `(base, step)` from `sec` into `out`:
/// `out[i] = (sec[i] - base - i * step) mod 256` for every position both
/// hold; the rest of `out` is left as it is.
pub fn apply_stream(sec: &[u8], base: u8, step: u8, out: &mut Vec<u8>)
    ensures
        final(out)@.len() == old(out)@.len(),
        forall|i: int|
            0 <= i < old(out)@.len() ==> #[trigger] final(out)@[i] == if i < sec@.len() {
                plain_keys(sec@, base as int, step as int)[i]
            } else {
                old(out)@[i]
            },
{
    let mut i: usize = 0;
    while i < sec.len() && i < out.len()
        invariant
            i <= sec@.len(),
            i <= out@.len(),
            out@.len() == old(out)@.len(),
            forall|j: int|
                0 <= j < old(out)@.len() ==> #[trigger] out@[j] == if j < i {
                    plain_keys(sec@, base as int, step as int)[j]
                } else {
                    old(out)@[j]
                },
        decreases sec@.len() - i,
    {
        let v = unfill_byte(sec[i], base, i, step);
        out.set(i, v);
        i += 1;
    }
}


// ---------------------------------------------------------------------------
// Laws
// ---------------------------------------------------------------------------

/// The sector that the fill `(base, step)` makes of the plaintext `p`:
/// `(base + i * step + p[i]) mod 256`.
pub open spec fn fill_sector(base: int, step: int, p: Seq<u8>) -> Seq<u8> {
    Seq::new(p.len(), |i: int| byte(base + i * step + p[i]))
}

/// `n` zero bytes.
pub open spec fn zeros(n: nat) -> Seq<u8> {
    Seq::new(n, |i: int| 0u8)
}

/// Reducing an inner sum modulo 256 first does not change a byte.
pub(crate) proof fn lemma_byte_inner(a: int, b: int)
    ensures
        byte(byte(a) + b) == byte(a + b),
{
    lemma_fundamental_div_mod(a, 256);
    assert(byte(a) as int == a % 256);
    assert(byte(a) + b == (a + b) + 256 * (-(a / 256)));
    lemma_byte_shift(a + b, -(a / 256));
}

proof fn lemma_byte_small(x: int)
    requires
        0 <= x < 256,
    ensures
        byte(x) == x,
{
}

pub(crate) proof fn lemma_count_all(keys: Seq<u8>, c: int, v: int, n: int)
    requires
        0 <= n <= keys.len(),
        forall|i: int| 0 <= i < n ==> keys[i] as int == c,
    ensures
        key_count(keys, v, n) == if v == c {
            n
        } else {
            0
        },
    decreases n,
{
    if n > 0 {
        lemma_count_all(keys, c, v, n - 1);
    }
}

pub(crate) proof fn lemma_count_miss(keys: Seq<u8>, v: int, n: int, i0: int)
    requires
        0 <= i0 < n <= keys.len(),
        keys[i0] as int != v,
    ensures
        key_count(keys, v, n) <= n - 1,
    decreases n,
{
    if n - 1 == i0 {
        lemma_key_count_bound(keys, v, n - 1);
    } else {
        lemma_count_miss(keys, v, n - 1, i0);
    }
}

proof fn lemma_max_upto_le(h: Seq<int>, n: int, m: int)
    requires
        0 <= n <= h.len(),
        0 <= m,
        forall|j: int| 0 <= j < n ==> h[j] <= m,
    ensures
        max_upto(h, n) <= m,
    decreases n,
{
    if n > 0 {
        lemma_max_upto_le(h, n - 1, m);
    }
}

proof fn lemma_max_upto_ge(h: Seq<int>, n: int, j: int)
    requires
        0 <= j < n <= h.len(),
    ensures
        max_upto(h, n) >= h[j],
    decreases n,
{
    if j < n - 1 {
        lemma_max_upto_ge(h, n - 1, j);
    }
}

/// Removing the fill `(base, step)` from a sector that this fill obfuscates
/// gives back its plaintext.
pub proof fn lemma_unfill_fill(base: int, step: int, p: Seq<u8>)
    ensures
        plain_keys(fill_sector(base, step, p), base, step) == p,
{
    let sec = fill_sector(base, step, p);
    assert forall|i: int| 0 <= i < p.len() implies plain_keys(sec, base, step)[i] == p[i] by {
        lemma_byte_inner(base + i * step + p[i], -base - i * step);
        assert(base + i * step + p[i] + (-base - i * step) == p[i] as int);
        lemma_byte_small(p[i] as int);
    }
    assert(plain_keys(sec, base, step) =~= p);
}

/// In a pure fill sector (zero plaintext) of at least two bytes, the
/// dominant adjacent difference is the step.
pub proof fn lemma_pure_dominant_step(base: u8, step: u8, n: nat)
    requires
        n >= 2,
    ensures
        dominant_step_spec(fill_sector(base as int, step as int, zeros(n))) == step,
{
    let sec = fill_sector(base as int, step as int, zeros(n));
    let keys = diff_keys(sec);
    assert forall|i: int| 0 <= i < keys.len() implies keys[i] as int == step as int by {
        let a = base + (i + 1) * step + 0;
        let b = base + i * step + 0;
        assert(sec[i + 1] == byte(a));
        assert(sec[i] == byte(b));
        lemma_byte_inner(a, -(sec[i] as int));
        lemma_byte_inner(b, -a);
        assert(byte(sec[i + 1] - sec[i]) == byte(a - sec[i]));
        lemma_fundamental_div_mod(b, 256);
        assert((i + 1) * step == i * step + step) by (nonlinear_arith);
        assert(sec[i] as int == b - 256 * (b / 256));
        assert(a - sec[i] == step + 256 * (b / 256));
        lemma_byte_shift(step as int, b / 256);
        lemma_byte_small(step as int);
    }
    let h = hist_of(keys);
    assert forall|v: int| 0 <= v < 256 implies h[v] == if v == step as int {
        (n - 1) as int
    } else {
        0
    } by {
        lemma_count_all(keys, step as int, v, keys.len() as int);
    }
    assert(is_last_argmax(h, step as int));
    lemma_last_argmax(h, step as int);
}

/// In a pure fill sector (zero plaintext) of at least one byte, the most
/// common base candidate under the true step is the base.
pub proof fn lemma_pure_recover_base(base: u8, step: u8, n: nat)
    requires
        n >= 1,
    ensures
        recover_base_spec(fill_sector(base as int, step as int, zeros(n)), step as int) == base,
{
    let sec = fill_sector(base as int, step as int, zeros(n));
    let keys = base_keys(sec, step as int);
    assert forall|i: int| 0 <= i < keys.len() implies keys[i] as int == base as int by {
        lemma_byte_inner(base + i * step + 0, -(i * step));
        assert(base + i * step + 0 + -(i * step) == base as int);
        lemma_byte_small(base as int);
    }
    let h = hist_of(keys);
    assert forall|v: int| 0 <= v < 256 implies h[v] == if v == base as int {
        n as int
    } else {
        0
    } by {
        lemma_count_all(keys, base as int, v, keys.len() as int);
    }
    assert(is_last_argmax(h, base as int));
    lemma_last_argmax(h, base as int);
}

/// Every byte of a pure fill sector is a hit of its fill.
pub proof fn lemma_pure_hits(base: u8, step: u8, n: nat)
    ensures
        hits_spec(fill_sector(base as int, step as int, zeros(n)), base as int, step as int) == n,
{
    let sec = fill_sector(base as int, step as int, zeros(n));
    lemma_unfill_fill(base as int, step as int, zeros(n));
    let keys = plain_keys(sec, base as int, step as int);
    lemma_count_all(keys, 0, 0, n as int);
}

proof fn lemma_pure_best_step_upto(sec: Seq<u8>, base: int, step: int, n: int, k: int)
    requires
        0 <= step < 256,
        1 <= n,
        0 <= k <= 256,
        peak(sec, base, step) == n,
        forall|s: int| 0 <= s < 256 && s != step ==> peak(sec, base, s) <= n - 1,
        forall|s: int| 0 <= s < 256 ==> peak(sec, base, s) >= 0,
    ensures
        k <= step ==> 0 <= best_step_upto(sec, base, k).1 <= n - 1,
        k > step ==> best_step_upto(sec, base, k) == (step, n),
    decreases k,
{
    if k > 0 {
        lemma_pure_best_step_upto(sec, base, step, n, k - 1);
    }
}

/// Removing the fill `(off, s)` from a sector filled with `(base, step)`
/// leaves `(base - off) + p[i] + i * (step - s)` at position `i`.
pub(crate) proof fn lemma_refill_key(p: Seq<u8>, base: int, step: int, off: int, s: int, i: int)
    requires
        0 <= i < p.len(),
    ensures
        plain_keys(fill_sector(base, step, p), off, s)[i] == byte(
            (base - off) + p[i] + i * (step - s),
        ),
{
    lemma_byte_inner(base + i * step + p[i], -off - i * s);
    assert(base + i * step + p[i] + (-off - i * s) == (base - off) + p[i] + i * (step - s))
        by (nonlinear_arith);
}

/// Two bytes that differ by `d` are equal only if `d` is a multiple of 256.
proof fn lemma_byte_apart(x: int, d: int)
    requires
        byte(x + d) == byte(x),
    ensures
        byte(d) == 0,
{
    lemma_byte_inner(x + d, -x);
    lemma_byte_inner(x, -x);
    assert(x + d + -x == d);
}

/// Under a step other than the sector's own, a value is hit at most once
/// in each pair of positions `(2t, 2t + 1)` whose plaintext bytes are both
/// zero: among the first `2 * j` positions it is hit at most `j` times plus
/// once per non-zero plaintext byte, whatever base is removed.
pub(crate) proof fn lemma_pair_count(p: Seq<u8>, base: int, step: int, off: int, s: int, v: int, j: int)
    requires
        0 <= j,
        2 * j <= p.len(),
        byte(step - s) != 0,
    ensures
        key_count(plain_keys(fill_sector(base, step, p), off, s), v, 2 * j) <= j + (2 * j
            - key_count(p, 0, 2 * j)),
    decreases j,
{
    if j > 0 {
        lemma_pair_count(p, base, step, off, s, v, j - 1);
        let keys = plain_keys(fill_sector(base, step, p), off, s);
        let a = 2 * j - 2;
        let b = 2 * j - 1;
        lemma_refill_key(p, base, step, off, s, a);
        lemma_refill_key(p, base, step, off, s, b);
        if p[a] == 0 && p[b] == 0 && keys[a] == keys[b] {
            let x = (base - off) + 0 + a * (step - s);
            assert((base - off) + 0 + b * (step - s) == x + (step - s)) by (nonlinear_arith)
                requires
                    b == a + 1,
                    x == (base - off) + 0 + a * (step - s),
            ;
            lemma_byte_apart(x, step - s);
            assert(false);
        }
        assert(key_count(keys, v, b) == key_count(keys, v, a) + if keys[a] as int == v {
            1nat
        } else {
            0nat
        });
        assert(key_count(keys, v, 2 * j) == key_count(keys, v, b) + if keys[b] as int == v {
            1nat
        } else {
            0nat
        });
        assert(key_count(p, 0, b) == key_count(p, 0, a) + if p[a] == 0 {
            1nat
        } else {
            0nat
        });
        assert(key_count(p, 0, 2 * j) == key_count(p, 0, b) + if p[b] == 0 {
            1nat
        } else {
            0nat
        });
    }
}

/// Two different steps differ modulo 256.
pub(crate) proof fn lemma_steps_apart(step: int, s: int)
    requires
        0 <= step < 256,
        0 <= s < 256,
        step != s,
    ensures
        byte(step - s) != 0,
{
    if step > s {
        lemma_byte_small(step - s);
    } else {
        lemma_byte_shift(step - s, 1);
        lemma_byte_small(step - s + 256);
    }
}

/// In a sector of even length whose plaintext is more than three quarters
/// zero, the step search under the true base finds the true step.
pub proof fn lemma_sparse_best_step(base: u8, step: u8, p: Seq<u8>)
    requires
        p.len() >= 2,
        p.len() % 2 == 0,
        4 * (p.len() - key_count(p, 0, p.len() as int)) < p.len(),
    ensures
        best_step(fill_sector(base as int, step as int, p), base as int).0 == step,
{
    let n = p.len() as int;
    let z = key_count(p, 0, n) as int;
    let sec = fill_sector(base as int, step as int, p);
    lemma_unfill_fill(base as int, step as int, p);
    let ht = hist_of(plain_keys(sec, base as int, step as int));
    lemma_max_upto_ge(ht, 256, 0);
    let top = peak(sec, base as int, step as int);
    assert(top >= z);
    lemma_key_count_bound(p, 0, n);
    assert forall|s: int| 0 <= s < 256 && s != step implies peak(sec, base as int, s) <= top - 1 by {
        lemma_steps_apart(step as int, s);
        let h = hist_of(plain_keys(sec, base as int, s));
        assert forall|v: int| 0 <= v < 256 implies h[v] <= n / 2 + (n - z) by {
            lemma_pair_count(p, base as int, step as int, base as int, s, v, n / 2);
        }
        lemma_max_upto_le(h, 256, n / 2 + (n - z));
    }
    lemma_pure_best_step_upto(sec, base as int, step as int, top, 256);
}

/// `n` copies of the byte `c`.
pub open spec fn repeated(c: u8, n: nat) -> Seq<u8> {
    Seq::new(n, |i: int| c)
}

/// A sector whose plaintext is one repeated byte `c` (such as a fully set
/// bitmap sector of `0xFF`) is decoded exactly: under the true base the
/// step search returns the true step, and every byte of the sector is in
/// its peak, whatever `c` is.
pub proof fn lemma_constant_best_step(base: u8, step: u8, c: u8, n: nat)
    requires
        n >= 2,
    ensures
        best_step(fill_sector(base as int, step as int, repeated(c, n)), base as int) == (
            step as int,
            n as int,
        ),
        plain_keys(fill_sector(base as int, step as int, repeated(c, n)), base as int, step as int)
            == repeated(c, n),
{
    let p = repeated(c, n);
    let sec = fill_sector(base as int, step as int, p);
    lemma_unfill_fill(base as int, step as int, p);
    let kt = plain_keys(sec, base as int, step as int);
    let ht = hist_of(kt);
    assert forall|v: int| 0 <= v < 256 implies ht[v] == if v == c as int {
        n as int
    } else {
        0
    } by {
        lemma_count_all(kt, c as int, v, n as int);
    }
    lemma_max_upto_le(ht, 256, n as int);
    lemma_max_upto_ge(ht, 256, c as int);
    assert(peak(sec, base as int, step as int) == n);
    assert forall|s: int| 0 <= s < 256 && s != step implies peak(sec, base as int, s) <= n - 1 by {
        let keys = plain_keys(sec, base as int, s);
        lemma_refill_key(p, base as int, step as int, base as int, s, 0);
        lemma_refill_key(p, base as int, step as int, base as int, s, 1);
        assert(keys[0] == byte(c as int)) by {
            assert((base - base) + p[0] + 0 * (step - s) == c as int);
        }
        assert(keys[1] == byte(c + (step - s))) by {
            assert((base - base) + p[1] + 1 * (step - s) == c + (step - s));
        }
        lemma_steps_apart(step as int, s);
        if keys[0] == keys[1] {
            lemma_byte_apart(c as int, step - s);
        }
        let h = hist_of(keys);
        assert forall|v: int| 0 <= v < 256 implies h[v] <= n - 1 by {
            if keys[0] as int != v {
                lemma_count_miss(keys, v, n as int, 0);
            } else {
                lemma_count_miss(keys, v, n as int, 1);
            }
        }
        lemma_max_upto_le(h, 256, n - 1);
    }
    lemma_pure_best_step_upto(sec, base as int, step as int, n as int, 256);
}

} // verus!
