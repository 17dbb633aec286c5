use vstd::prelude::*;

use vstd::arithmetic::div_mod::{lemma_div_is_ordered, lemma_fundamental_div_mod, lemma_mod_bound};

verus! {

// ---------------------------------------------------------------------------
// Resampling
// ---------------------------------------------------------------------------

/// `x / d` rounded to the nearest integer, halves rounded up.
pub open spec fn round_div(x: int, d: int) -> int {
    (2 * x + d) / (2 * d)
}

/// Value of a ramp of `n = c.len()` entries resampled to `t` entries, at output
/// index `i`: the source is read at position `i * (n - 1) / (t - 1)`; the whole
/// part `idx` of that position picks two neighbouring entries, and the
/// fractional part `frac / (t - 1)` interpolates linearly between them. The
/// last source entry is taken as is.
pub open spec fn resample_at(c: Seq<u16>, t: int, i: int) -> u16 {
    let n = c.len() as int;
    let d = t - 1;
    let idx = (i * (n - 1)) / d;
    let frac = (i * (n - 1)) % d;
    if idx >= n - 1 {
        c[n - 1]
    } else {
        round_div(c[idx] * (d - frac) + c[idx + 1] * frac, d) as u16
    }
}

/// A ramp linearly resampled to `t` entries. An empty ramp or an empty target
/// gives an empty ramp; a single-entry ramp, or a single-entry target, gives
/// `t` copies of the first entry.
pub open spec fn resample_spec(c: Seq<u16>, t: nat) -> Seq<u16> {
    if c.len() == 0 || t == 0 {
        Seq::empty()
    } else if c.len() == 1 || t == 1 {
        Seq::new(t, |i: int| c[0])
    } else {
        Seq::new(t, |i: int| resample_at(c, t as int, i))
    }
}

/// The interpolation numerator at output index `i` (the value times `d`); the
/// last source entry counts as `c[n - 1] * d`.
pub open spec fn interp_numerator(c: Seq<u16>, d: int, i: int) -> int {
    let n = c.len() as int;
    let idx = (i * (n - 1)) / d;
    let frac = (i * (n - 1)) % d;
    if idx >= n - 1 {
        c[n - 1] * d
    } else {
        c[idx] * (d - frac) + c[idx + 1] * frac
    }
}

pub open spec fn is_nondecreasing(c: Seq<u16>) -> bool {
    forall|a: int, b: int| 0 <= a <= b < c.len() ==> c[a] <= c[b]
}

pub open spec fn all_within(c: Seq<u16>, lo: int, hi: int) -> bool {
    forall|k: int| 0 <= k < c.len() ==> lo <= #[trigger] c[k] <= hi
}

/// Rounding a value that lies between `lo * d` and `hi * d` gives a value
/// between `lo` and `hi`.
proof fn lemma_round_div_between(x: int, d: int, lo: int, hi: int)
    requires
        d > 0,
        lo * d <= x <= hi * d,
    ensures
        lo <= round_div(x, d) <= hi,
{
    let y = 2 * x + d;
    let q = y / (2 * d);
    let r = y % (2 * d);
    lemma_fundamental_div_mod(y, 2 * d);
    lemma_mod_bound(y, 2 * d);
    assert(lo <= q && q <= hi) by (nonlinear_arith)
        requires
            d > 0,
            y == (2 * d) * q + r,
            0 <= r < 2 * d,
            y == 2 * x + d,
            lo * d <= x <= hi * d,
    ;
}

/// An exact multiple rounds to its quotient.
proof fn lemma_round_div_exact(v: int, d: int)
    requires
        d > 0,
    ensures
        round_div(v * d, d) == v,
{
    lemma_round_div_between(v * d, d, v, v);
}

/// The interpolated numerator lies between the two neighbouring entries.
proof fn lemma_interp_between(a: int, b: int, d: int, f: int)
    requires
        d > 0,
        0 <= f < d,
    ensures
        a <= b ==> a * d <= a * (d - f) + b * f <= b * d,
        b <= a ==> b * d <= a * (d - f) + b * f <= a * d,
{
    assert(a <= b ==> a * d <= a * (d - f) + b * f <= b * d) by (nonlinear_arith)
        requires
            d > 0,
            0 <= f < d,
    ;
    assert(b <= a ==> b * d <= a * (d - f) + b * f <= a * d) by (nonlinear_arith)
        requires
            d > 0,
            0 <= f < d,
    ;
}

/// Facts about the read position of output index `i`.
proof fn lemma_position(n: int, d: int, i: int)
    requires
        n >= 2,
        d >= 1,
        0 <= i <= d,
    ensures
        0 <= (i * (n - 1)) / d <= n - 1,
        0 <= (i * (n - 1)) % d < d,
        i * (n - 1) == d * ((i * (n - 1)) / d) + (i * (n - 1)) % d,
        i == d ==> (i * (n - 1)) / d == n - 1,
{
    let p = i * (n - 1);
    lemma_fundamental_div_mod(p, d);
    lemma_mod_bound(p, d);
    assert(0 <= p <= d * (n - 1)) by (nonlinear_arith)
        requires
            n >= 2,
            0 <= i <= d,
            p == i * (n - 1),
    ;
    assert(0 <= p / d <= n - 1) by (nonlinear_arith)
        requires
            d >= 1,
            0 <= p <= d * (n - 1),
            p == d * (p / d) + p % d,
            0 <= p % d < d,
    ;
    if i == d {
        assert(p / d == n - 1) by (nonlinear_arith)
            requires
                d >= 1,
                p == d * (n - 1),
                p == d * (p / d) + p % d,
                0 <= p % d < d,
        ;
    }
}

/// Each resampled value is the rounded interpolation numerator.
proof fn lemma_resample_at_rounds(c: Seq<u16>, t: int, i: int)
    requires
        c.len() >= 2,
        t >= 2,
        0 <= i < t,
    ensures
        resample_at(c, t, i) as int == round_div(interp_numerator(c, t - 1, i), t - 1),
{
    let n = c.len() as int;
    let d = t - 1;
    lemma_position(n, d, i);
    let idx = (i * (n - 1)) / d;
    let frac = (i * (n - 1)) % d;
    if idx >= n - 1 {
        lemma_round_div_exact(c[n - 1] as int, d);
    } else {
        let a = c[idx] as int;
        let b = c[idx + 1] as int;
        lemma_interp_between(a, b, d, frac);
        if a <= b {
            lemma_round_div_between(a * (d - frac) + b * frac, d, a, b);
        } else {
            lemma_round_div_between(a * (d - frac) + b * frac, d, b, a);
        }
    }
}

/// The interpolation numerator lies between `lo * d` and `hi * d` whenever
/// every source entry lies between `lo` and `hi`.
proof fn lemma_numerator_within(c: Seq<u16>, d: int, i: int, lo: int, hi: int)
    requires
        c.len() >= 2,
        d >= 1,
        0 <= i <= d,
        all_within(c, lo, hi),
    ensures
        lo * d <= interp_numerator(c, d, i) <= hi * d,
{
    let n = c.len() as int;
    lemma_position(n, d, i);
    let idx = (i * (n - 1)) / d;
    let frac = (i * (n - 1)) % d;
    if idx >= n - 1 {
        let v = c[n - 1] as int;
        assert(lo <= v <= hi);
        assert(lo * d <= v * d <= hi * d) by (nonlinear_arith)
            requires
                d >= 1,
                lo <= v <= hi,
        ;
    } else {
        let a = c[idx] as int;
        let b = c[idx + 1] as int;
        assert(lo <= a <= hi);
        assert(lo <= b <= hi);
        assert(lo * d <= a * (d - frac) + b * frac <= hi * d) by (nonlinear_arith)
            requires
                d >= 1,
                0 <= frac < d,
                lo <= a <= hi,
                lo <= b <= hi,
        ;
    }
}

/// On a non-decreasing ramp the interpolation numerator does not decrease
/// along the output.
proof fn lemma_numerator_monotone(c: Seq<u16>, d: int, i: int, j: int)
    requires
        c.len() >= 2,
        d >= 1,
        0 <= i <= j <= d,
        is_nondecreasing(c),
    ensures
        interp_numerator(c, d, i) <= interp_numerator(c, d, j),
{
    let n = c.len() as int;
    lemma_position(n, d, i);
    lemma_position(n, d, j);
    let pi = i * (n - 1);
    let pj = j * (n - 1);
    assert(pi <= pj) by (nonlinear_arith)
        requires
            i <= j,
            n >= 2,
            pi == i * (n - 1),
            pj == j * (n - 1),
    ;
    lemma_div_is_ordered(pi, pj, d);
    let qi = pi / d;
    let qj = pj / d;
    let fi = pi % d;
    let fj = pj % d;
    // Upper bound for index i: the entry after its left neighbour, times d.
    let upper_i = if qi >= n - 1 {
        c[n - 1] * d
    } else {
        c[qi + 1] * d
    };
    if qi < n - 1 {
        let a = c[qi] as int;
        let b = c[qi + 1] as int;
        assert(a <= b);
        lemma_interp_between(a, b, d, fi);
    }
    assert(interp_numerator(c, d, i) <= upper_i);
    if qj >= n - 1 {
        // j reads the last entry.
        if qi < n - 1 {
            assert(c[qi + 1] <= c[n - 1]);
            assert(c[qi + 1] * d <= c[n - 1] * d) by (nonlinear_arith)
                requires
                    d >= 1,
                    c[qi + 1] <= c[n - 1],
            ;
        }
    } else if qi == qj {
        let a = c[qi] as int;
        let b = c[qi + 1] as int;
        assert(a <= b);
        assert(fi <= fj) by (nonlinear_arith)
            requires
                pi == d * qi + fi,
                pj == d * qj + fj,
                qi == qj,
                pi <= pj,
        ;
        assert(a * (d - fi) + b * fi <= a * (d - fj) + b * fj) by (nonlinear_arith)
            requires
                a <= b,
                fi <= fj,
        ;
    } else {
        // qi < qj < n - 1
        let a = c[qj] as int;
        let b = c[qj + 1] as int;
        assert(a <= b);
        lemma_interp_between(a, b, d, fj);
        assert(c[qi + 1] <= c[qj]);
        assert(c[qi + 1] * d <= c[qj] * d) by (nonlinear_arith)
            requires
                d >= 1,
                c[qi + 1] <= c[qj],
        ;
    }
}

/// Resampling a ramp to a length of 2 or more keeps its first and its last
/// entry in place.
pub proof fn lemma_resample_keeps_endpoints(c: Seq<u16>, t: nat)
    requires
        c.len() >= 1,
        t >= 1,
    ensures
        resample_spec(c, t).len() == t,
        resample_spec(c, t)[0] == c[0],
        (t >= 2 || c.len() == 1) ==> resample_spec(c, t)[t - 1] == c[c.len() - 1],
{
    if c.len() >= 2 && t >= 2 {
        let n = c.len() as int;
        let d = t - 1;
        lemma_position(n, d, 0);
        lemma_position(n, d, d);
        assert((0 * (n - 1)) == 0);
        lemma_round_div_exact(c[0] as int, d);
        assert(c[0] * (d - 0) + c[1] * 0 == c[0] * d) by (nonlinear_arith);
    }
}

/// Resampling a non-decreasing ramp gives a non-decreasing ramp.
pub proof fn lemma_resample_preserves_monotonicity(c: Seq<u16>, t: nat)
    requires
        is_nondecreasing(c),
    ensures
        is_nondecreasing(resample_spec(c, t)),
{
    let out = resample_spec(c, t);
    if c.len() >= 2 && t >= 2 {
        assert forall|a: int, b: int| 0 <= a <= b < out.len() implies out[a] <= out[b] by {
            let d = t - 1;
            lemma_numerator_monotone(c, d, a, b);
            lemma_resample_at_rounds(c, t as int, a);
            lemma_resample_at_rounds(c, t as int, b);
            lemma_div_is_ordered(
                2 * interp_numerator(c, d, a) + d,
                2 * interp_numerator(c, d, b) + d,
                2 * d,
            );
        }
    }
}

/// Every resampled value lies within any range that holds every source entry.
pub proof fn lemma_resample_within_source_range(c: Seq<u16>, t: nat, lo: int, hi: int)
    requires
        all_within(c, lo, hi),
    ensures
        all_within(resample_spec(c, t), lo, hi),
{
    let out = resample_spec(c, t);
    if c.len() >= 2 && t >= 2 {
        assert forall|k: int| 0 <= k < out.len() implies lo <= #[trigger] out[k] <= hi by {
            let d = t - 1;
            lemma_numerator_within(c, d, k, lo, hi);
            lemma_resample_at_rounds(c, t as int, k);
            lemma_round_div_between(interp_numerator(c, d, k), d, lo, hi);
        }
    } else if c.len() >= 1 {
        assert forall|k: int| 0 <= k < out.len() implies lo <= #[trigger] out[k] <= hi by {
            assert(out[k] == c[0]);
        }
    }
}

/// Resampling a ramp to its own length gives the ramp back.
pub proof fn lemma_resample_same_length_is_identity(c: Seq<u16>)
    ensures
        resample_spec(c, c.len()) == c,
{
    let n = c.len() as int;
    let out = resample_spec(c, c.len());
    if n >= 2 {
        let d = n - 1;
        assert forall|i: int| 0 <= i < n implies out[i] == c[i] by {
            lemma_position(n, d, i);
            lemma_mod_bound(i * (n - 1), d);
            let p = i * (n - 1);
            assert(p / d == i && p % d == 0) by (nonlinear_arith)
                requires
                    d >= 1,
                    p == i * d,
                    p == d * (p / d) + p % d,
                    0 <= p % d < d,
            ;
            if i < n - 1 {
                assert(c[i] * (d - 0) + c[i + 1] * 0 == c[i] * d) by (nonlinear_arith);
                lemma_round_div_exact(c[i] as int, d);
            }
        }
    }
    assert(out =~= c);
}

/// One resampled value, computed exactly in 128-bit integers.
fn resample_one(channel: &[u16], target_size: usize, i: usize) -> (v: u16)
    requires
        channel@.len() >= 2,
        target_size >= 2,
        i < target_size,
    ensures
        v == resample_at(channel@, target_size as int, i as int),
{
    let n = channel.len();
    let ghost c = channel@;
    let n1: u128 = (n - 1) as u128;
    let d: u128 = (target_size - 1) as u128;
    proof {
        lemma_position(n as int, d as int, i as int);
    }
    assert((i as int) * (n1 as int) <= (d as int) * (n1 as int)) by (nonlinear_arith)
        requires
            i <= d,
            n1 >= 1,
    ;
    assert((d as int) * (n1 as int) <= 0xffff_ffff_ffff_ffff * 0xffff_ffff_ffff_ffff)
        by (nonlinear_arith)
        requires
            d <= 0xffff_ffff_ffff_ffff,
            n1 <= 0xffff_ffff_ffff_ffff,
    ;
    let pos: u128 = (i as u128) * n1;
    let idx: u128 = pos / d;
    let frac: u128 = pos % d;
    if idx >= n1 {
        channel[n - 1]
    } else {
        let k = idx as usize;
        let a: u128 = channel[k] as u128;
        let b: u128 = channel[k + 1] as u128;
        assert(a * (d - frac) <= 65535 * d && b * frac <= 65535 * d) by (nonlinear_arith)
            requires
                a <= 65535,
                b <= 65535,
                frac < d,
        ;
        let num: u128 = a * (d - frac) + b * frac;
        let v: u128 = (2 * num + d) / (2 * d);
        proof {
            lemma_interp_between(a as int, b as int, d as int, frac as int);
            if a <= b {
                lemma_round_div_between(num as int, d as int, a as int, b as int);
            } else {
                lemma_round_div_between(num as int, d as int, b as int, a as int);
            }
        }
        v as u16
    }
}

/// Linearly resample a channel to target hardware LUT size.
pub fn resample_vcgt(channel: &[u16], target_size: usize) -> (out: Vec<u16>)
    ensures
        out@ == resample_spec(channel@, target_size as nat),
{
    if channel.len() == 0 || target_size == 0 {
        return Vec::new();
    }
    if channel.len() == 1 || target_size == 1 {
        let first = channel[0];
        let mut out: Vec<u16> = Vec::with_capacity(target_size);
        let mut i: usize = 0;
        while i < target_size
            invariant
                i <= target_size,
                out@ =~= Seq::new(i as nat, |k: int| first),
            decreases target_size - i,
        {
            out.push(first);
            i = i + 1;
        }
        return out;
    }
    if channel.len() == target_size {
        proof {
            lemma_resample_same_length_is_identity(channel@);
        }
        return vstd::slice::slice_to_vec(channel);
    }
    let mut result: Vec<u16> = Vec::with_capacity(target_size);
    let mut i: usize = 0;
    while i < target_size
        invariant
            channel@.len() >= 2,
            target_size >= 2,
            i <= target_size,
            result@ =~= Seq::new(i as nat, |k: int| resample_at(channel@, target_size as int, k)),
        decreases target_size - i,
    {
        let v = resample_one(channel, target_size, i);
        result.push(v);
        i = i + 1;
    }
    result
}

// ---------------------------------------------------------------------------
// Fusion
// ---------------------------------------------------------------------------

/// One fused output value: the product of the two inputs, read as fractions
/// of full scale (65535), scaled back to 16 bits and rounded to nearest.
pub open spec fn fuse_value(base: u16, client: u16) -> u16 {
    round_div(base * client, 65535) as u16
}

/// Element-wise fusion of two LUTs, as long as the shorter of the two.
pub open spec fn fuse_exact_spec(base: Seq<u16>, client: Seq<u16>) -> Seq<u16> {
    let len = if base.len() <= client.len() {
        base.len()
    } else {
        client.len()
    };
    Seq::new(len, |i: int| fuse_value(base[i], client[i]))
}

/// A three-channel LUT (red, green, blue blocks of equal length) with each
/// block resampled to `size` entries.
pub open spec fn resample_rgb_spec(lut: Seq<u16>, size: nat) -> Seq<u16> {
    let s = (lut.len() / 3) as int;
    resample_spec(lut.subrange(0, s), size) + resample_spec(lut.subrange(s, 2 * s), size)
        + resample_spec(lut.subrange(2 * s, 3 * s), size)
}

/// Client gamma fused onto a base calibration LUT. An empty LUT leaves the
/// other as it is. Two non-empty LUTs of different lengths that both divide
/// into three channels have the base resampled channel by channel to the
/// client's channel length first; otherwise the two are fused element by
/// element over the shorter length.
pub open spec fn fuse_spec(base: Seq<u16>, client: Seq<u16>) -> Seq<u16> {
    if base.len() == 0 {
        client
    } else if client.len() == 0 {
        base
    } else if base.len() != client.len() && client.len() % 3 == 0 && base.len() % 3 == 0 {
        fuse_exact_spec(resample_rgb_spec(base, client.len() / 3), client)
    } else {
        fuse_exact_spec(base, client)
    }
}

proof fn lemma_fuse_value_bounds(base: u16, client: u16)
    ensures
        fuse_value(base, client) <= base,
        fuse_value(base, client) <= client,
        round_div(base * client, 65535) <= 65535,
{
    let p = base * client;
    assert(0 <= p <= base * 65535 && p <= client * 65535) by (nonlinear_arith)
        requires
            p == base * client,
            0 <= base <= 65535,
            0 <= client <= 65535,
    ;
    lemma_round_div_between(p, 65535, 0, base as int);
    lemma_round_div_between(p, 65535, 0, client as int);
}

fn fuse_one(base: u16, client: u16) -> (r: u16)
    ensures
        r == fuse_value(base, client),
{
    assert(base * client <= 65535 * 65535) by (nonlinear_arith)
        requires
            base <= 65535,
            client <= 65535,
    ;
    proof {
        lemma_fuse_value_bounds(base, client);
    }
    let p: u64 = (base as u64) * (client as u64);
    let v: u64 = (2 * p + 65535) / 131070;
    v as u16
}

fn fuse_gamma_exact(base_vcgt: &[u16], client_lut: &[u16]) -> (out: Vec<u16>)
    ensures
        out@ == fuse_exact_spec(base_vcgt@, client_lut@),
{
    let len = if base_vcgt.len() <= client_lut.len() {
        base_vcgt.len()
    } else {
        client_lut.len()
    };
    let mut out: Vec<u16> = Vec::with_capacity(len);
    let mut i: usize = 0;
    while i < len
        invariant
            len <= base_vcgt@.len(),
            len <= client_lut@.len(),
            len == fuse_exact_spec(base_vcgt@, client_lut@).len(),
            i <= len,
            out@ =~= Seq::new(i as nat, |k: int| fuse_value(base_vcgt@[k], client_lut@[k])),
        decreases len - i,
    {
        let v = fuse_one(base_vcgt[i], client_lut[i]);
        out.push(v);
        i = i + 1;
    }
    out
}

/// Fuse client gamma (night light) with base VCGT calibration.
pub fn fuse_gamma(base_vcgt: &[u16], client_lut: &[u16]) -> (out: Vec<u16>)
    ensures
        out@ == fuse_spec(base_vcgt@, client_lut@),
{
    if base_vcgt.len() == 0 {
        return vstd::slice::slice_to_vec(client_lut);
    }
    if client_lut.len() == 0 {
        return vstd::slice::slice_to_vec(base_vcgt);
    }
    if base_vcgt.len() != client_lut.len() {
        if client_lut.len() % 3 == 0 && base_vcgt.len() % 3 == 0 {
            let base_size = base_vcgt.len() / 3;
            let client_size = client_lut.len() / 3;
            if base_size > 0 && client_size > 0 {
                let mut resampled = resample_vcgt(&base_vcgt[0..base_size], client_size);
                let mut green = resample_vcgt(
                    &base_vcgt[base_size..2 * base_size],
                    client_size,
                );
                let mut blue = resample_vcgt(
                    &base_vcgt[2 * base_size..3 * base_size],
                    client_size,
                );
                resampled.append(&mut green);
                resampled.append(&mut blue);
                assert(resampled@ =~= resample_rgb_spec(base_vcgt@, client_size as nat));
                return fuse_gamma_exact(resampled.as_slice(), client_lut);
            }
        }
    }
    fuse_gamma_exact(base_vcgt, client_lut)
}

/// Fusing with a full-scale client LUT of the same length leaves the base
/// unchanged.
pub proof fn lemma_fuse_full_client_is_identity(base: Seq<u16>, client: Seq<u16>)
    requires
        base.len() == client.len(),
        forall|i: int| 0 <= i < client.len() ==> client[i] == 65535,
    ensures
        fuse_spec(base, client) == base,
{
    if base.len() > 0 {
        assert forall|i: int| 0 <= i < base.len() implies fuse_value(base[i], client[i])
            == base[i] by {
            let b = base[i] as int;
            assert(b * 65535 == 65535 * b) by (nonlinear_arith);
            lemma_round_div_exact(b, 65535);
        }
        assert(fuse_spec(base, client) =~= base);
    }
}

/// Fusing with an all-zero client LUT of the same length gives all zeros.
pub proof fn lemma_fuse_zero_client_is_black(base: Seq<u16>, client: Seq<u16>)
    requires
        base.len() == client.len(),
        forall|i: int| 0 <= i < client.len() ==> client[i] == 0,
    ensures
        forall|i: int| 0 <= i < base.len() ==> fuse_spec(base, client)[i] == 0,
        fuse_spec(base, client).len() == base.len(),
{
    assert forall|i: int| 0 <= i < base.len() implies fuse_value(base[i], client[i]) == 0 by {
        lemma_fuse_value_bounds(base[i], client[i]);
    }
}

/// Fusing two non-empty LUTs never brightens: each fused value is at most
/// the client value and at most the (possibly resampled) base value at the
/// same index.
pub proof fn lemma_fuse_never_brightens(base: Seq<u16>, client: Seq<u16>)
    requires
        base.len() > 0,
        client.len() > 0,
    ensures
        forall|i: int|
            0 <= i < fuse_spec(base, client).len() ==> #[trigger] fuse_spec(base, client)[i]
                <= client[i],
        base.len() == client.len() ==> forall|i: int|
            0 <= i < base.len() ==> #[trigger] fuse_spec(base, client)[i] <= base[i],
{
    let out = fuse_spec(base, client);
    let b2 = if base.len() != client.len() && client.len() % 3 == 0 && base.len() % 3 == 0 {
        resample_rgb_spec(base, client.len() / 3)
    } else {
        base
    };
    assert(out == fuse_exact_spec(b2, client));
    assert forall|i: int| 0 <= i < out.len() implies #[trigger] out[i] <= client[i] && out[i]
        <= b2[i] by {
        lemma_fuse_value_bounds(b2[i], client[i]);
    }
}

/// Fusing two LUTs of the same length does not depend on which one is the
/// base.
pub proof fn lemma_fuse_same_length_commutes(base: Seq<u16>, client: Seq<u16>)
    requires
        base.len() == client.len(),
    ensures
        fuse_spec(base, client) == fuse_spec(client, base),
{
    if base.len() > 0 {
        assert forall|i: int| 0 <= i < base.len() implies fuse_value(base[i], client[i])
            == fuse_value(client[i], base[i]) by {
            assert(base[i] * client[i] == client[i] * base[i]) by (nonlinear_arith);
        }
        assert(fuse_spec(base, client) =~= fuse_spec(client, base));
    }
}

/// The length of a fused LUT: an empty LUT gives the other's length; two
/// non-empty three-channel LUTs give the client's length; otherwise the
/// shorter length.
pub proof fn lemma_fuse_length(base: Seq<u16>, client: Seq<u16>)
    ensures
        fuse_spec(base, client).len() == if base.len() == 0 {
            client.len()
        } else if client.len() == 0 {
            base.len()
        } else if client.len() % 3 == 0 && base.len() % 3 == 0 {
            client.len()
        } else if base.len() <= client.len() {
            base.len()
        } else {
            client.len()
        },
{
    if base.len() > 0 && client.len() > 0 && base.len() != client.len() && client.len() % 3 == 0
        && base.len() % 3 == 0 {
        let s = (base.len() / 3) as int;
        let cs = client.len() / 3;
        assert(resample_spec(base.subrange(0, s), cs).len() == cs);
        assert(resample_spec(base.subrange(s, 2 * s), cs).len() == cs);
        assert(resample_spec(base.subrange(2 * s, 3 * s), cs).len() == cs);
    }
}

/// Fusing two three-channel LUTs of different lengths with a full-scale
/// client gives the base resampled channel by channel to the client's
/// channel length.
pub proof fn lemma_fuse_full_client_resamples_base(base: Seq<u16>, client: Seq<u16>)
    requires
        base.len() > 0,
        client.len() > 0,
        base.len() != client.len(),
        base.len() % 3 == 0,
        client.len() % 3 == 0,
        forall|i: int| 0 <= i < client.len() ==> client[i] == 65535,
    ensures
        fuse_spec(base, client) == resample_rgb_spec(base, client.len() / 3),
{
    let aligned = resample_rgb_spec(base, client.len() / 3);
    lemma_fuse_length(base, client);
    assert forall|i: int| 0 <= i < client.len() implies fuse_value(aligned[i], client[i])
        == aligned[i] by {
        let b = aligned[i] as int;
        assert(b * 65535 == 65535 * b) by (nonlinear_arith);
        lemma_round_div_exact(b, 65535);
    }
    assert(fuse_spec(base, client) =~= aligned);
}

/// Fusing two non-empty three-channel LUTs of different lengths: entry `j`
/// of fused channel `k` is the fusion of entry `j` of the whole base channel
/// `k`, linearly resampled to the client's channel length, with the client's
/// entry at the same place.
pub proof fn lemma_fuse_resamples_each_base_channel(base: Seq<u16>, client: Seq<u16>)
    requires
        base.len() > 0,
        client.len() > 0,
        base.len() != client.len(),
        base.len() % 3 == 0,
        client.len() % 3 == 0,
    ensures
        ({
            let s = (base.len() / 3) as int;
            let m = (client.len() / 3) as int;
            &&& fuse_spec(base, client).len() == client.len()
            &&& forall|k: int, j: int|
                0 <= k < 3 && 0 <= j < m ==> #[trigger] fuse_spec(base, client)[k * m + j]
                    == fuse_value(
                    resample_spec(base.subrange(k * s, (k + 1) * s), m as nat)[j],
                    client[k * m + j],
                )
        }),
{
    let s = (base.len() / 3) as int;
    let m = (client.len() / 3) as int;
    let red = resample_spec(base.subrange(0, s), m as nat);
    let green = resample_spec(base.subrange(s, 2 * s), m as nat);
    let blue = resample_spec(base.subrange(2 * s, 3 * s), m as nat);
    assert(red.len() == m && green.len() == m && blue.len() == m);
    let aligned = resample_rgb_spec(base, m as nat);
    assert(aligned == red + green + blue);
    lemma_fuse_length(base, client);
    assert forall|k: int, j: int|
        0 <= k < 3 && 0 <= j < m implies #[trigger] fuse_spec(base, client)[k * m + j]
        == fuse_value(
        resample_spec(base.subrange(k * s, (k + 1) * s), m as nat)[j],
        client[k * m + j],
    ) by {
        if k == 0 {
            assert(k * m + j == j);
            assert(aligned[j] == red[j]);
        } else if k == 1 {
            assert(k * m + j == m + j);
            assert(k * s == s && (k + 1) * s == 2 * s);
            assert(aligned[m + j] == green[j]);
        } else {
            assert(k * m + j == 2 * m + j);
            assert(k * s == 2 * s && (k + 1) * s == 3 * s);
            assert(aligned[2 * m + j] == blue[j]);
        }
    }
}

/// With a full-scale client, two non-empty three-channel LUTs of different
/// lengths fuse to the base with each channel block linearly resampled to
/// the client's channel length: fused channel `k` is the resampled base
/// channel `k`, so it starts at the base channel's first entry and (for a
/// target of two or more entries) ends at the base channel's last entry.
pub proof fn lemma_fuse_full_client_channels(base: Seq<u16>, client: Seq<u16>)
    requires
        base.len() > 0,
        client.len() > 0,
        base.len() != client.len(),
        base.len() % 3 == 0,
        client.len() % 3 == 0,
        forall|i: int| 0 <= i < client.len() ==> client[i] == 65535,
    ensures
        ({
            let s = (base.len() / 3) as int;
            let m = (client.len() / 3) as int;
            let fused = fuse_spec(base, client);
            &&& fused.len() == client.len()
            &&& forall|k: int|
                0 <= k < 3 ==> #[trigger] fused.subrange(k * m, (k + 1) * m) == resample_spec(
                    base.subrange(k * s, (k + 1) * s),
                    m as nat,
                )
            &&& forall|k: int| 0 <= k < 3 ==> #[trigger] fused[k * m] == base[k * s]
            &&& forall|k: int|
                0 <= k < 3 && (m >= 2 || s == 1) ==> #[trigger] fused[(k + 1) * m - 1] == base[(k
                    + 1) * s - 1]
        }),
{
    let s = (base.len() / 3) as int;
    let m = (client.len() / 3) as int;
    let fused = fuse_spec(base, client);
    lemma_fuse_resamples_each_base_channel(base, client);
    assert forall|k: int| 0 <= k < 3 implies #[trigger] fused.subrange(k * m, (k + 1) * m)
        == resample_spec(base.subrange(k * s, (k + 1) * s), m as nat) by {
        let chan = base.subrange(k * s, (k + 1) * s);
        let r = resample_spec(chan, m as nat);
        assert(0 <= k * s && (k + 1) * s <= base.len()) by (nonlinear_arith)
            requires
                0 <= k < 3,
                s >= 1,
                base.len() == 3 * s,
        ;
        assert((k + 1) * s - k * s == s) by (nonlinear_arith);
        assert((k + 1) * m - k * m == m) by (nonlinear_arith);
        assert(0 <= k * m && (k + 1) * m <= client.len()) by (nonlinear_arith)
            requires
                0 <= k < 3,
                m >= 1,
                client.len() == 3 * m,
        ;
        lemma_resample_keeps_endpoints(chan, m as nat);
        assert forall|j: int| 0 <= j < m implies fused.subrange(k * m, (k + 1) * m)[j] == r[j] by {
            assert(fused[k * m + j] == fuse_value(r[j], client[k * m + j]));
            assert(k * m + j < 3 * m) by (nonlinear_arith)
                requires
                    0 <= k < 3,
                    0 <= j < m,
            ;
            assert(client[k * m + j] == 65535);
            let b = r[j] as int;
            assert(b * 65535 == 65535 * b) by (nonlinear_arith);
            lemma_round_div_exact(b, 65535);
        }
        assert(fused.subrange(k * m, (k + 1) * m) =~= r);
    }
    assert forall|k: int| 0 <= k < 3 implies #[trigger] fused[k * m] == base[k * s] by {
        let chan = base.subrange(k * s, (k + 1) * s);
        assert(fused.subrange(k * m, (k + 1) * m) == resample_spec(chan, m as nat));
        assert((k + 1) * s - k * s == s) by (nonlinear_arith);
        assert((k + 1) * m - k * m == m) by (nonlinear_arith);
        assert(0 <= k * s && (k + 1) * s <= base.len()) by (nonlinear_arith)
            requires
                0 <= k < 3,
                s >= 1,
                base.len() == 3 * s,
        ;
        assert(0 <= k * m && (k + 1) * m <= client.len()) by (nonlinear_arith)
            requires
                0 <= k < 3,
                m >= 1,
                client.len() == 3 * m,
        ;
        lemma_resample_keeps_endpoints(chan, m as nat);
        assert(fused.subrange(k * m, (k + 1) * m)[0] == fused[k * m]);
        assert(chan[0] == base[k * s]);
    }
    assert forall|k: int| 0 <= k < 3 && (m >= 2 || s == 1) implies #[trigger] fused[(k + 1) * m
        - 1] == base[(k + 1) * s - 1] by {
        let chan = base.subrange(k * s, (k + 1) * s);
        assert(fused.subrange(k * m, (k + 1) * m) == resample_spec(chan, m as nat));
        assert((k + 1) * s - k * s == s) by (nonlinear_arith);
        assert((k + 1) * m - k * m == m) by (nonlinear_arith);
        assert(0 <= k * s && (k + 1) * s <= base.len()) by (nonlinear_arith)
            requires
                0 <= k < 3,
                s >= 1,
                base.len() == 3 * s,
        ;
        assert(0 <= k * m && (k + 1) * m <= client.len()) by (nonlinear_arith)
            requires
                0 <= k < 3,
                m >= 1,
                client.len() == 3 * m,
        ;
        lemma_resample_keeps_endpoints(chan, m as nat);
        assert(fused.subrange(k * m, (k + 1) * m)[m - 1] == fused[k * m + (m - 1)]);
        assert(k * m + (m - 1) == (k + 1) * m - 1) by (nonlinear_arith);
        assert(chan[s - 1] == base[k * s + (s - 1)]);
        assert(k * s + (s - 1) == (k + 1) * s - 1) by (nonlinear_arith);
    }
}

/// Each resampled entry is the nearest integer (halves up) to the linear
/// interpolation of the source at the read position `i * (n - 1) / (t - 1)`:
/// writing that position as `idx + f / d` with `d = t - 1`, the entry `r`
/// satisfies `r - 1/2 < (c[idx] * (d - f) + c[idx + 1] * f) / d <= r + 1/2`;
/// the last output entry is the last source entry.
pub proof fn lemma_resample_is_nearest_interpolation(c: Seq<u16>, t: nat, i: int, idx: int, f: int)
    requires
        c.len() >= 2,
        t >= 2,
        0 <= i < t,
        0 <= f < t - 1,
        idx * (t - 1) + f == i * (c.len() - 1),
    ensures
        resample_spec(c, t).len() == t,
        idx < c.len() - 1 ==> ({
            let d = t - 1;
            let r = resample_spec(c, t)[i] as int;
            let v = c[idx] * (d - f) + c[idx + 1] * f;
            &&& 0 <= idx
            &&& 2 * d * r <= 2 * v + d
            &&& 2 * v + d < 2 * d * (r + 1)
        }),
        i == t - 1 ==> resample_spec(c, t)[i] == c[c.len() - 1],
{
    let n = c.len() as int;
    let d = t - 1;
    lemma_position(n, d, i);
    let p = i * (n - 1);
    vstd::arithmetic::div_mod::lemma_fundamental_div_mod_converse(p, d, idx, f);
    assert(idx == p / d && f == p % d) by {
        assert(p == idx * d + f);
    }
    if i == t - 1 {
        lemma_resample_keeps_endpoints(c, t);
    }
    if idx < n - 1 {
        let v = c[idx] * (d - f) + c[idx + 1] * f;
        let y = 2 * v + d;
        let q = y / (2 * d);
        lemma_fundamental_div_mod(y, 2 * d);
        lemma_mod_bound(y, 2 * d);
        assert(0 <= v) by (nonlinear_arith)
            requires
                0 <= f < d,
                c[idx] >= 0,
                c[idx + 1] >= 0,
                v == c[idx] * (d - f) + c[idx + 1] * f,
        ;
        lemma_interp_between(c[idx] as int, c[idx + 1] as int, d, f);
        if c[idx] <= c[idx + 1] {
            lemma_round_div_between(v, d, c[idx] as int, c[idx + 1] as int);
        } else {
            lemma_round_div_between(v, d, c[idx + 1] as int, c[idx] as int);
        }
        assert(resample_spec(c, t)[i] as int == q);
        assert(2 * d * q <= y && y < 2 * d * (q + 1)) by (nonlinear_arith)
            requires
                y == (2 * d) * q + y % (2 * d),
                0 <= y % (2 * d) < 2 * d,
        ;
    }
}

/// A single-entry ramp, or a single-entry target, gives copies of the first
/// source entry.
pub proof fn lemma_resample_degenerate_sizes(c: Seq<u16>, t: nat)
    requires
        c.len() >= 1,
        c.len() == 1 || t == 1,
    ensures
        resample_spec(c, t).len() == t,
        forall|i: int| 0 <= i < t ==> #[trigger] resample_spec(c, t)[i] == c[0],
{
}

/// Each fused entry of two LUTs of the same length is the nearest integer
/// (halves up) to `base[i] * client[i] / 65535`.
pub proof fn lemma_fuse_same_length_is_nearest_product(base: Seq<u16>, client: Seq<u16>)
    requires
        base.len() == client.len(),
    ensures
        fuse_spec(base, client).len() == base.len(),
        forall|i: int|
            0 <= i < base.len() ==> {
                let r = #[trigger] fuse_spec(base, client)[i] as int;
                let p = base[i] * client[i];
                &&& 2 * 65535 * r <= 2 * p + 65535
                &&& 2 * p + 65535 < 2 * 65535 * (r + 1)
            },
{
    assert forall|i: int| 0 <= i < base.len() implies {
        let r = #[trigger] fuse_spec(base, client)[i] as int;
        let p = base[i] * client[i];
        &&& 2 * 65535 * r <= 2 * p + 65535
        &&& 2 * p + 65535 < 2 * 65535 * (r + 1)
    } by {
        let p = base[i] * client[i];
        lemma_fuse_value_bounds(base[i], client[i]);
        assert(0 <= p) by (nonlinear_arith)
            requires
                p == base[i] * client[i],
                base[i] >= 0,
                client[i] >= 0,
        ;
        let y = 2 * p + 65535;
        lemma_fundamental_div_mod(y, 131070);
        lemma_mod_bound(y, 131070);
        let q = y / 131070;
        assert(fuse_spec(base, client) == fuse_exact_spec(base, client));
        assert(fuse_spec(base, client)[i] == fuse_value(base[i], client[i]));
        assert(round_div(p, 65535) == q);
        assert(fuse_spec(base, client)[i] as int == q);
        assert(2 * 65535 * q <= y && y < 2 * 65535 * (q + 1)) by (nonlinear_arith)
            requires
                y == 131070 * q + y % 131070,
                0 <= y % 131070 < 131070,
        ;
    }
}

} // verus!
