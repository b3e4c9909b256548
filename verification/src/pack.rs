//! Weight repacking for the quad-blocked convolution kernels, and the pixel
//! shuffle that turns `3*s^2` channels into an `s`-times larger image. All
//! three are permutations of their input, so they work on any `Copy` element.
use vstd::prelude::*;
use vstd::arithmetic::div_mod::lemma_fundamental_div_mod_converse;

verus! {

/// Position in the packed 3x3 weights of tap `t` of row `ky`, input channel
/// `ic`, output channel `4*q + ob`: quad-major, then input channel, row,
/// output channel within the quad, tap.
pub open spec fn conv3x3_dst(cin: int, q: int, ic: int, ky: int, ob: int, t: int) -> int {
    (((q * cin + ic) * 3 + ky) * 4 + ob) * 3 + t
}

/// Position of that tap in the `[cout][cin][3][3]` weights.
pub open spec fn conv3x3_src(cin: int, q: int, ic: int, ky: int, ob: int, t: int) -> int {
    ((q * 4 + ob) * cin + ic) * 9 + ky * 3 + t
}

/// Splitting `a*d + r` by `d` gives back `a` and `r`.
pub proof fn lemma_split(a: int, d: int, r: int)
    requires
        d > 0,
        0 <= r < d,
    ensures
        (a * d + r) / d == a,
        (a * d + r) % d == r,
{
    lemma_fundamental_div_mod_converse(a * d + r, d, a, r);
}

/// `q*c + i` stays below `n*c` for `q < n` and `i < c`.
pub proof fn lemma_row_major_bound(q: int, i: int, n: int, c: int)
    requires
        0 <= q < n,
        0 <= i < c,
    ensures
        0 <= q * c + i < n * c,
{
    assert((q + 1) * c <= n * c) by (nonlinear_arith)
        requires
            q + 1 <= n,
            c > 0,
    ;
    assert(q * c + i < (q + 1) * c) by (nonlinear_arith)
        requires
            i < c,
    ;
    assert(q * c >= 0) by (nonlinear_arith)
        requires
            q >= 0,
            c >= 0,
    ;
}

/// Repack `[cout][cin][3][3]` conv weights into quad-major iteration order:
/// per output-channel quad, per (input channel, kernel row), 12 values
/// `[ob0 t0,t1,t2, ob1 t0,..]`. Channels past the last full quad are dropped.
pub fn pack_conv3x3<T: Copy>(wts: &[T], cin: usize, cout: usize) -> (out: Vec<T>)
    requires
        wts@.len() >= 36 * (cout / 4) * cin,
    ensures
        out@.len() == 36 * (cout / 4) * cin,
        forall|q: int, ic: int, ky: int, ob: int, t: int|
            0 <= q < cout / 4 && 0 <= ic < cin && 0 <= ky < 3 && 0 <= ob < 4 && 0 <= t < 3 ==> out@[
                #[trigger] conv3x3_dst(cin as int, q, ic, ky, ob, t)] == wts@[conv3x3_src(
                cin as int,
                q,
                ic,
                ky,
                ob,
                t,
            )],
{
    let nq = cout / 4;
    proof {
        assert(36 * nq * cin == ((nq * cin) * 3 * 4) * 3) by (nonlinear_arith);
        assert(36 * nq * cin <= wts.len());
        assert(nq * cin <= 36 * nq * cin) by (nonlinear_arith)
            requires
                nq * cin >= 0,
        ;
        assert(nq * cin * 36 == 36 * nq * cin) by (nonlinear_arith);
    }
    let n = nq * cin * 36;
    let mut out: Vec<T> = Vec::new();
    let mut j: usize = 0;
    while j < n
        invariant
            n == 36 * nq * cin,
            nq == cout / 4,
            wts@.len() >= n,
            j <= n,
            out@.len() == j,
            forall|k: int|
                0 <= k < j ==> #[trigger] out@[k] == wts@[conv3x3_src(
                    cin as int,
                    k / 3 / 4 / 3 / cin as int,
                    k / 3 / 4 / 3 % cin as int,
                    k / 3 / 4 % 3,
                    k / 3 % 4,
                    k % 3,
                )],
        decreases n - j,
    {
        let t = j % 3;
        let ob = (j / 3) % 4;
        let ky = (j / 3 / 4) % 3;
        let x1 = j / 3 / 4 / 3;
        let ic = x1 % cin;
        let q = x1 / cin;
        proof {
            assert(x1 < nq * cin) by (nonlinear_arith)
                requires
                    x1 == j / 3 / 4 / 3,
                    j < 36 * nq * cin,
            ;
            assert(q < nq) by (nonlinear_arith)
                requires
                    q == x1 / cin,
                    x1 < nq * cin,
                    cin > 0,
            ;
            assert(((q * 4 + ob) * cin + ic) * 9 + ky * 3 + t < 36 * nq * cin) by (nonlinear_arith)
                requires
                    q < nq,
                    ob < 4,
                    ic < cin,
                    ky < 3,
                    t < 3,
            ;
        }
        let src = ((q * 4 + ob) * cin + ic) * 9 + ky * 3 + t;
        out.push(wts[src]);
        j = j + 1;
    }
    proof {
        assert forall|q: int, ic: int, ky: int, ob: int, t: int|
            0 <= q < cout / 4 && 0 <= ic < cin && 0 <= ky < 3 && 0 <= ob < 4 && 0 <= t
                < 3 implies out@[#[trigger] conv3x3_dst(cin as int, q, ic, ky, ob, t)]
            == wts@[conv3x3_src(cin as int, q, ic, ky, ob, t)] by {
            let c = cin as int;
            let x1 = q * c + ic;
            let x2 = x1 * 3 + ky;
            let x3 = x2 * 4 + ob;
            let k = x3 * 3 + t;
            lemma_split(x3, 3, t);
            lemma_split(x2, 4, ob);
            lemma_split(x1, 3, ky);
            lemma_split(q, c, ic);
            lemma_row_major_bound(q, ic, nq as int, c);
            assert(36 * nq * c == ((nq * c) * 3 * 4) * 3) by (nonlinear_arith);
            assert(k < n);
            assert(k == conv3x3_dst(c, q, ic, ky, ob, t));
        }
    }
    out
}

/// Position in the packed 1x1 weights of input `wi`, output channel
/// `4*q + ob`.
pub open spec fn conv1x1_dst(q: int, wi: int, ob: int, cin_total: int) -> int {
    (q * cin_total + wi) * 4 + ob
}

/// Repack `[cout][cin_total]` 1x1 conv weights into quad-major `[wi][4]`
/// order. Channels past the last full quad are dropped.
pub fn pack_conv1x1<T: Copy>(wts: &[T], cin_total: usize, cout: usize) -> (out: Vec<T>)
    requires
        wts@.len() >= 4 * (cout / 4) * cin_total,
    ensures
        out@.len() == 4 * (cout / 4) * cin_total,
        forall|q: int, wi: int, ob: int|
            0 <= q < cout / 4 && 0 <= wi < cin_total && 0 <= ob < 4 ==> out@[#[trigger] conv1x1_dst(
                q,
                wi,
                ob,
                cin_total as int,
            )] == wts@[(q * 4 + ob) * cin_total + wi],
{
    let nq = cout / 4;
    proof {
        assert(4 * nq * cin_total == (nq * cin_total) * 4) by (nonlinear_arith);
        assert(4 * nq * cin_total <= wts.len());
        assert(nq * cin_total <= 4 * nq * cin_total) by (nonlinear_arith)
            requires
                nq * cin_total >= 0,
        ;
        assert(nq * cin_total * 4 == 4 * nq * cin_total) by (nonlinear_arith);
    }
    let n = nq * cin_total * 4;
    let mut out: Vec<T> = Vec::new();
    let mut j: usize = 0;
    while j < n
        invariant
            n == 4 * nq * cin_total,
            nq == cout / 4,
            wts@.len() >= n,
            j <= n,
            out@.len() == j,
            forall|k: int|
                0 <= k < j ==> #[trigger] out@[k] == wts@[(k / 4 / cin_total as int * 4 + k % 4)
                    * cin_total + k / 4 % cin_total as int],
        decreases n - j,
    {
        let ob = j % 4;
        let x1 = j / 4;
        let wi = x1 % cin_total;
        let q = x1 / cin_total;
        proof {
            assert(x1 < nq * cin_total) by (nonlinear_arith)
                requires
                    x1 == j / 4,
                    j < 4 * nq * cin_total,
            ;
            assert(q < nq) by (nonlinear_arith)
                requires
                    q == x1 / cin_total,
                    x1 < nq * cin_total,
                    cin_total > 0,
            ;
            assert((q * 4 + ob) * cin_total + wi < 4 * nq * cin_total) by (nonlinear_arith)
                requires
                    q < nq,
                    ob < 4,
                    wi < cin_total,
            ;
        }
        out.push(wts[(q * 4 + ob) * cin_total + wi]);
        j = j + 1;
    }
    proof {
        assert forall|q: int, wi: int, ob: int|
            0 <= q < cout / 4 && 0 <= wi < cin_total && 0 <= ob < 4 implies out@[
            #[trigger] conv1x1_dst(q, wi, ob, cin_total as int)] == wts@[(q * 4 + ob) * cin_total
            + wi] by {
            let c = cin_total as int;
            let x1 = q * c + wi;
            let k = x1 * 4 + ob;
            lemma_split(x1, 4, ob);
            lemma_split(q, c, wi);
            lemma_row_major_bound(q, wi, nq as int, c);
            assert(4 * nq * c == (nq * c) * 4) by (nonlinear_arith);
            assert(k < n);
        }
    }
    out
}

/// Input position feeding output pixel (`Y`, `X`) of color `c` in a pixel
/// shuffle by `s`: channel `c*s^2 + (Y mod s)*s + (X mod s)`, which holds
/// its plane `cstride` apart, at (`Y div s`, `X div s`).
pub open spec fn shuffle_src(c: int, yy: int, xx: int, s: int, wd: int, cstride: int) -> int {
    (c * (s * s) + (yy % s) * s + xx % s) * cstride + (yy / s) * wd + xx / s
}

/// Bounds of a shuffle source position.
proof fn lemma_shuffle_src_bound(c: int, y: int, ry: int, x: int, rx: int, s: int, h: int, wd: int, cs: int)
    requires
        0 <= c < 3,
        0 <= y < h,
        0 <= ry < s,
        0 <= x < wd,
        0 <= rx < s,
        cs >= 0,
    ensures
        0 <= (c * (s * s) + ry * s + rx) * cs + y * wd + x,
        (c * (s * s) + ry * s + rx) * cs + y * wd + x < (3 * (s * s) - 1) * cs + h * wd,
{
    lemma_row_major_bound(y, x, h, wd);
    lemma_row_major_bound(ry, rx, s, s);
    lemma_row_major_bound(c, ry * s + rx, 3, s * s);
    let ch = c * (s * s) + ry * s + rx;
    assert(ch * cs <= (3 * (s * s) - 1) * cs) by (nonlinear_arith)
        requires
            ch <= 3 * (s * s) - 1,
            cs >= 0,
    ;
    assert(ch * cs >= 0) by (nonlinear_arith)
        requires
            ch >= 0,
            cs >= 0,
    ;
}

/// Pixel shuffle by `s`: `3*s^2` planes of `h x wd` (plane `k` starting at
/// `k * cstride`) become 3 planes of `s*h x s*wd`; input channel
/// `c*s^2 + ry*s + rx` feeds pixel (`y*s + ry`, `x*s + rx`) of plane `c`.
pub fn pixel_shuffle_s_strided<T: Copy>(inp: &[T], cstride: usize, h: usize, wd: usize, s: usize) -> (out: Vec<T>)
    requires
        inp@.len() >= (3 * (s * s) - 1) * cstride + h * wd,
        3 * (h * s) * (wd * s) <= usize::MAX,
    ensures
        out@.len() == 3 * (h * s) * (wd * s),
        forall|c: int, yy: int, xx: int|
            0 <= c < 3 && 0 <= yy < h * s && 0 <= xx < wd * s ==> #[trigger] out@[c * ((h * s) * (
                wd * s)) + yy * (wd * s) + xx] == inp@[shuffle_src(
                c,
                yy,
                xx,
                s as int,
                wd as int,
                cstride as int,
            )],
{
    if s == 0 || h == 0 || wd == 0 {
        assert(3 * (h * s) * (wd * s) == 0) by (nonlinear_arith)
            requires
                s == 0 || h == 0 || wd == 0,
        ;
        return Vec::new();
    }
    proof {
        assert(h * s >= 1 && wd * s >= 1) by (nonlinear_arith)
            requires
                h >= 1,
                wd >= 1,
                s >= 1,
        ;
        assert((h * s) * (wd * s) >= 1) by (nonlinear_arith)
            requires
                h * s >= 1,
                wd * s >= 1,
        ;
        assert(h * s <= (h * s) * (wd * s)) by (nonlinear_arith)
            requires
                wd * s >= 1,
                h * s >= 0,
        ;
        assert(wd * s <= (h * s) * (wd * s)) by (nonlinear_arith)
            requires
                h * s >= 1,
                wd * s >= 0,
        ;
        assert((h * s) * (wd * s) <= 3 * (h * s) * (wd * s)) by (nonlinear_arith)
            requires
                (h * s) * (wd * s) >= 1,
        ;
        assert(3 * (h * s) * (wd * s) == 3 * ((h * s) * (wd * s))) by (nonlinear_arith);
        assert(s * s <= (h * s) * (wd * s)) by (nonlinear_arith)
            requires
                h >= 1,
                wd >= 1,
                s >= 1,
        ;
    }
    let oh = h * s;
    let ow = wd * s;
    let op = oh * ow;
    let n = 3 * op;
    let mut out: Vec<T> = Vec::new();
    let mut k: usize = 0;
    while k < n
        invariant
            s >= 1,
            h >= 1,
            wd >= 1,
            oh == h * s,
            ow == wd * s,
            op == oh * ow,
            op >= 1,
            ow >= 1,
            n == 3 * op,
            3 * (s * s) <= n <= usize::MAX,
            inp.len() >= (3 * (s * s) - 1) * cstride + h * wd,
            k <= n,
            out@.len() == k,
            forall|j: int|
                0 <= j < k ==> #[trigger] out@[j] == inp@[shuffle_src(
                    j / op as int,
                    j % op as int / ow as int,
                    j % op as int % ow as int,
                    s as int,
                    wd as int,
                    cstride as int,
                )],
        decreases n - k,
    {
        let c = k / op;
        let r = k % op;
        let yy = r / ow;
        let xx = r % ow;
        let (y, ry, x, rx) = (yy / s, yy % s, xx / s, xx % s);
        proof {
            assert(c < 3) by (nonlinear_arith)
                requires
                    c == k / op,
                    k < 3 * op,
                    op >= 1,
            ;
            assert(r < op) by (nonlinear_arith)
                requires
                    r == k % op,
                    op >= 1,
            ;
            assert(yy < oh) by (nonlinear_arith)
                requires
                    yy == r / ow,
                    r < oh * ow,
                    ow >= 1,
            ;
            assert(xx < ow) by (nonlinear_arith)
                requires
                    xx == r % ow,
                    ow >= 1,
            ;
            assert(y < h) by (nonlinear_arith)
                requires
                    y == yy / s,
                    yy < h * s,
                    s >= 1,
            ;
            assert(x < wd) by (nonlinear_arith)
                requires
                    x == xx / s,
                    xx < wd * s,
                    s >= 1,
            ;
            assert(ry < s && rx < s) by (nonlinear_arith)
                requires
                    ry == yy % s,
                    rx == xx % s,
                    s >= 1,
            ;
            lemma_shuffle_src_bound(c as int, y as int, ry as int, x as int, rx as int, s as int, h as int, wd as int, cstride as int);
            assert(s * s >= 1) by (nonlinear_arith)
                requires
                    s >= 1,
            ;
            assert(c * (s * s) <= 2 * (s * s)) by (nonlinear_arith)
                requires
                    c <= 2,
                    s * s >= 1,
            ;
            assert(ry * s <= (s - 1) * s) by (nonlinear_arith)
                requires
                    ry <= s - 1,
                    s >= 1,
            ;
            assert(y * wd <= (h - 1) * wd) by (nonlinear_arith)
                requires
                    y <= h - 1,
                    wd >= 1,
            ;
            assert((s - 1) * s == s * s - s) by (nonlinear_arith);
            assert(c * (s * s) + ry * s + rx <= 3 * (s * s) - 1);
        }
        let src = (c * (s * s) + ry * s + rx) * cstride + y * wd + x;
        out.push(inp[src]);
        k = k + 1;
    }
    proof {
        assert forall|c: int, yy: int, xx: int|
            0 <= c < 3 && 0 <= yy < h * s && 0 <= xx < wd * s implies #[trigger] out@[c * ((h * s)
            * (wd * s)) + yy * (wd * s) + xx] == inp@[shuffle_src(
            c,
            yy,
            xx,
            s as int,
            wd as int,
            cstride as int,
        )] by {
            let j = c * (op as int) + (yy * (ow as int) + xx);
            lemma_row_major_bound(yy, xx, oh as int, ow as int);
            lemma_split(yy, ow as int, xx);
            lemma_split(c, op as int, yy * (ow as int) + xx);
            lemma_row_major_bound(c, yy * (ow as int) + xx, 3, op as int);
        }
    }
    out
}

/// Pixel shuffle by 4 of 48 tightly stacked planes.
pub fn pixel_shuffle4<T: Copy>(inp: &[T], h: usize, wd: usize) -> (out: Vec<T>)
    requires
        inp@.len() >= 48 * (h * wd),
        3 * (h * 4) * (wd * 4) <= usize::MAX,
    ensures
        out@.len() == 3 * (h * 4) * (wd * 4),
        forall|c: int, yy: int, xx: int|
            0 <= c < 3 && 0 <= yy < h * 4 && 0 <= xx < wd * 4 ==> #[trigger] out@[c * ((h * 4) * (
                wd * 4)) + yy * (wd * 4) + xx] == inp@[shuffle_src(
                c,
                yy,
                xx,
                4,
                wd as int,
                (h * wd) as int,
            )],
{
    let len = inp.len();
    proof {
        assert(0 <= h * wd <= 48 * (h * wd)) by (nonlinear_arith);
        assert((3 * (4 * 4) - 1) * (h * wd) + h * wd == 48 * (h * wd)) by (nonlinear_arith);
    }
    pixel_shuffle_s_strided(inp, h * wd, h, wd, 4)
}

/// Pixel shuffle by 4 of 48 planes spaced `cstride` apart.
pub fn pixel_shuffle4_strided<T: Copy>(inp: &[T], cstride: usize, h: usize, wd: usize) -> (out: Vec<T>)
    requires
        inp@.len() >= 47 * cstride + h * wd,
        3 * (h * 4) * (wd * 4) <= usize::MAX,
    ensures
        out@.len() == 3 * (h * 4) * (wd * 4),
        forall|c: int, yy: int, xx: int|
            0 <= c < 3 && 0 <= yy < h * 4 && 0 <= xx < wd * 4 ==> #[trigger] out@[c * ((h * 4) * (
                wd * 4)) + yy * (wd * 4) + xx] == inp@[shuffle_src(
                c,
                yy,
                xx,
                4,
                wd as int,
                cstride as int,
            )],
{
    pixel_shuffle_s_strided(inp, cstride, h, wd, 4)
}

} // verus!
