//! JPEG marker scanning: signature check, header survey (quant tables, frame
//! size, sampling factors, coding mode, APPn markers) and luma-table lookup.
//!
//! Only the header is read; entropy-coded data after SOS is never touched.
use vstd::prelude::*;
use crate::zigzag::{lemma_zigzag_is_permutation, nz, zz, ZIGZAG_TO_NATURAL};

verus! {

/// Big-endian 16-bit value at `i`.
pub open spec fn be16(b: Seq<u8>, i: int) -> int {
    b[i] as int * 256 + b[i + 1] as int
}

/// Markers that carry no length field.
pub open spec fn is_standalone(m: u8) -> bool {
    m == 0xD8 || m == 0x01 || (0xD0 <= m && m <= 0xD7)
}

/// Start-of-frame markers (every SOFn except DHT, JPG and DAC).
pub open spec fn is_sof(m: u8) -> bool {
    m == 0xC0 || m == 0xC1 || m == 0xC2 || m == 0xC3 || m == 0xC5 || m == 0xC6 || m == 0xC7
        || m == 0xC9 || m == 0xCA || m == 0xCB || m == 0xCD || m == 0xCE || m == 0xCF
}

/// Start-of-frame markers of the progressive processes.
pub open spec fn is_progressive_sof(m: u8) -> bool {
    m == 0xC2 || m == 0xC6 || m == 0xCA || m == 0xCE
}

/// Byte count of a DQT table body for precision `pq` (8-bit or 16-bit entries).
pub open spec fn dqt_body_len(pq: u8) -> int {
    if pq == 0 { 64 } else { 128 }
}

/// The `k`-th (zigzag-order) entry of a DQT table body starting at `off`.
pub open spec fn dqt_value(b: Seq<u8>, off: int, pq: u8, k: int) -> u16 {
    if pq == 0 {
        b[off + k] as u16
    } else {
        (b[off + 2 * k] as int * 256 + b[off + 2 * k + 1] as int) as u16
    }
}

/// A DQT table body at `off`, de-zigzagged into natural (row-major) order.
pub open spec fn dqt_natural(b: Seq<u8>, off: int, pq: u8) -> Seq<u16> {
    Seq::new(64, |p: int| dqt_value(b, off, pq, nz(p)))
}

/// The tables of a DQT segment whose payload is `b[j..e]`, as
/// (destination, precision, natural-order values); a table whose body runs
/// past the segment ends the list.
pub open spec fn dqt_tables(b: Seq<u8>, j: int, e: int) -> Seq<(u8, u8, Seq<u16>)>
    decreases e - j,
{
    if j < 0 || j >= e {
        Seq::empty()
    } else {
        let pq = b[j] >> 4u8;
        let tq = b[j] & 0x0Fu8;
        let j1 = j + 1;
        if j1 + dqt_body_len(pq) > e {
            Seq::empty()
        } else {
            seq![(tq, pq, dqt_natural(b, j1, pq))] + dqt_tables(b, j1 + dqt_body_len(pq), e)
        }
    }
}

/// Sampling factors of an SOF payload `b[s..e]`, components `c..ncomp`,
/// skipping components whose entry lies past the payload.
pub open spec fn sof_samp(b: Seq<u8>, s: int, e: int, ncomp: int, c: int) -> Seq<(u8, u8)>
    decreases ncomp - c,
{
    if c >= ncomp {
        Seq::empty()
    } else {
        let o = 6 + 3 * c;
        let here = if o + 1 < e - s {
            seq![(b[s + o + 1] >> 4u8, b[s + o + 1] & 0x0Fu8)]
        } else {
            Seq::<(u8, u8)>::empty()
        };
        here + sof_samp(b, s, e, ncomp, c + 1)
    }
}

/// What a header survey has gathered.
pub struct HeaderSpec {
    pub tables: Seq<(u8, u8, Seq<u16>)>,
    pub width: u32,
    pub height: u32,
    pub ncomp: u8,
    pub samp: Seq<(u8, u8)>,
    pub progressive: bool,
    pub saw_sos: bool,
    pub app_markers: Seq<u8>,
}

/// The survey before any segment has been read.
pub open spec fn empty_header() -> HeaderSpec {
    HeaderSpec {
        tables: Seq::empty(),
        width: 0,
        height: 0,
        ncomp: 0,
        samp: Seq::empty(),
        progressive: false,
        saw_sos: false,
        app_markers: Seq::empty(),
    }
}

/// The survey after reading the segment with marker `m` and payload `b[s..e]`
/// (any marker but SOS).
pub open spec fn apply_segment(st: HeaderSpec, b: Seq<u8>, m: u8, s: int, e: int) -> HeaderSpec {
    if m == 0xDB {
        HeaderSpec { tables: st.tables + dqt_tables(b, s, e), ..st }
    } else if is_sof(m) {
        if e - s >= 6 {
            HeaderSpec {
                progressive: is_progressive_sof(m),
                height: be16(b, s + 1) as u32,
                width: be16(b, s + 3) as u32,
                ncomp: b[s + 5],
                samp: st.samp + sof_samp(b, s, e, b[s + 5] as int, 0),
                ..st
            }
        } else {
            HeaderSpec { progressive: is_progressive_sof(m), ..st }
        }
    } else if 0xE0 <= m && m <= 0xEF {
        HeaderSpec { app_markers: st.app_markers.push((m - 0xE0) as u8), ..st }
    } else {
        st
    }
}

/// The header survey from position `i` on, starting from `st`: markers are
/// searched byte by byte; standalone markers are stepped over; EOI, a length
/// below 2 or a segment running past the data end the survey; SOS ends it
/// with `saw_sos` set.
pub open spec fn scan_header(b: Seq<u8>, i: int, st: HeaderSpec) -> HeaderSpec
    decreases b.len() - i,
{
    if i < 0 || !(i + 3 < b.len()) {
        st
    } else if b[i] != 0xFF {
        scan_header(b, i + 1, st)
    } else {
        let m = b[i + 1];
        if is_standalone(m) {
            scan_header(b, i + 2, st)
        } else if m == 0xD9 {
            st
        } else {
            let len = be16(b, i + 2);
            if len < 2 || len > b.len() - i - 2 {
                st
            } else if m == 0xDA {
                HeaderSpec { saw_sos: true, ..st }
            } else {
                scan_header(b, i + 2 + len, apply_segment(st, b, m, i + 4, i + 2 + len))
            }
        }
    }
}

/// `b` opens with the SOI marker (and is long enough to hold one segment head).
pub open spec fn starts_with_soi(b: Seq<u8>) -> bool {
    b.len() >= 4 && b[0] == 0xFF && b[1] == 0xD8
}

/// What a JPEG header survey reports.
pub struct Header {
    /// (dest_id, precision, natural-order values)
    pub tables: Vec<(u8, u8, [u16; 64])>,
    pub width: u32,
    pub height: u32,
    pub ncomp: u8,
    /// (h_samp, v_samp) per component, in declaration order.
    pub samp: Vec<(u8, u8)>,
    pub progressive: bool,
    pub saw_sos: bool,
    pub app_markers: Vec<u8>,
}

/// Quant tables with their values as sequences.
pub open spec fn tables_view(t: Seq<(u8, u8, [u16; 64])>) -> Seq<(u8, u8, Seq<u16>)> {
    t.map_values(|x: (u8, u8, [u16; 64])| (x.0, x.1, x.2@))
}

impl View for Header {
    type V = HeaderSpec;

    open spec fn view(&self) -> HeaderSpec {
        HeaderSpec {
            tables: tables_view(self.tables@),
            width: self.width,
            height: self.height,
            ncomp: self.ncomp,
            samp: self.samp@,
            progressive: self.progressive,
            saw_sos: self.saw_sos,
            app_markers: self.app_markers@,
        }
    }
}

/// Reads one DQT table body at `off` into natural order.
fn read_dqt_table(b: &[u8], off: usize, pq: u8) -> (out: [u16; 64])
    requires
        off + dqt_body_len(pq) <= b.len(),
    ensures
        out@ =~= dqt_natural(b@, off as int, pq),
{
    proof {
        lemma_zigzag_is_permutation();
    }
    let mut table = [0u16; 64];
    for k in 0..64
        invariant
            off + dqt_body_len(pq) <= b.len(),
            forall|kk: int| 0 <= kk < k ==> table@[zz(kk)] == dqt_value(b@, off as int, pq, kk),
            forall|kk: int| 0 <= kk < 64 ==> 0 <= #[trigger] zz(kk) < 64 && nz(zz(kk)) == kk,
            forall|p: int| 0 <= p < 64 ==> 0 <= #[trigger] nz(p) < 64 && zz(nz(p)) == p,
    {
        let v: u16 = if pq == 0 {
            b[off + k] as u16
        } else {
            (b[off + k * 2] as u16) * 256 + b[off + k * 2 + 1] as u16
        };
        let p = ZIGZAG_TO_NATURAL[k];
        table[p] = v;
        proof {
            assert forall|kk: int| 0 <= kk < k + 1 implies table@[zz(kk)] == dqt_value(
                b@,
                off as int,
                pq,
                kk,
            ) by {
                if kk < k {
                    assert(nz(zz(kk)) == kk);
                }
            }
        }
    }
    proof {
        assert forall|p: int| 0 <= p < 64 implies table@[p] == dqt_value(b@, off as int, pq, nz(p)) by {
            assert(zz(nz(p)) == p);
        }
    }
    table
}

/// Appends the tables of the DQT payload `b[s..e]`.
fn push_dqt_tables(b: &[u8], s: usize, e: usize, tables: &mut Vec<(u8, u8, [u16; 64])>)
    requires
        s <= e <= b.len(),
    ensures
        tables_view(final(tables)@) == tables_view(old(tables)@) + dqt_tables(b@, s as int, e as int),
{
    let ghost t0 = tables_view(old(tables)@);
    let mut j = s;
    while j < e
        invariant
            s <= j,
            e <= b.len(),
            tables_view(tables@) + dqt_tables(b@, j as int, e as int) == t0 + dqt_tables(
                b@,
                s as int,
                e as int,
            ),
        ensures
            tables_view(tables@) == t0 + dqt_tables(b@, s as int, e as int),
        decreases e - j,
    {
        let x = b[j];
        let pq = x >> 4u8;
        let tq = x & 0x0Fu8;
        let j1 = j + 1;
        let n: usize = if pq == 0 { 64 } else { 128 };
        if n > e - j1 {
            assert(dqt_tables(b@, j as int, e as int) == Seq::<(u8, u8, Seq<u16>)>::empty());
            assert(tables_view(tables@) + Seq::<(u8, u8, Seq<u16>)>::empty() =~= tables_view(tables@));
            break;
        }
        let tbl = read_dqt_table(b, j1, pq);
        let ghost before = tables@;
        tables.push((tq, pq, tbl));
        proof {
            assert(tables_view(tables@) =~= tables_view(before).push((tq, pq, tbl@)));
            assert(dqt_tables(b@, j as int, e as int) == seq![(tq, pq, tbl@)] + dqt_tables(
                b@,
                (j1 + n) as int,
                e as int,
            ));
            assert(tables_view(before) + dqt_tables(b@, j as int, e as int) =~= tables_view(tables@)
                + dqt_tables(b@, (j1 + n) as int, e as int));
        }
        j = j1 + n;
    }
    if j >= e {
        assert(dqt_tables(b@, j as int, e as int) == Seq::<(u8, u8, Seq<u16>)>::empty());
        assert(tables_view(tables@) + Seq::<(u8, u8, Seq<u16>)>::empty() =~= tables_view(tables@));
    }
}

/// Appends the sampling factors of the SOF payload `b[s..e]` for `ncomp` components.
fn push_sof_samp(b: &[u8], s: usize, e: usize, ncomp: u8, samp: &mut Vec<(u8, u8)>)
    requires
        s <= e <= b.len(),
    ensures
        final(samp)@ == old(samp)@ + sof_samp(b@, s as int, e as int, ncomp as int, 0),
{
    let ghost s0 = old(samp)@;
    let n = ncomp as usize;
    for c in 0..n
        invariant
            s <= e <= b.len(),
            n == ncomp,
            samp@ + sof_samp(b@, s as int, e as int, ncomp as int, c as int) == s0 + sof_samp(
                b@,
                s as int,
                e as int,
                ncomp as int,
                0,
            ),
    {
        let o = 6 + c * 3;
        let ghost before = samp@;
        if o + 1 < e - s {
            let x = b[s + o + 1];
            samp.push((x >> 4u8, x & 0x0Fu8));
        }
        proof {
            let rest = sof_samp(b@, s as int, e as int, ncomp as int, c + 1);
            if o + 1 < e - s {
                assert(before + sof_samp(b@, s as int, e as int, ncomp as int, c as int) =~= samp@
                    + rest);
            } else {
                assert(before + sof_samp(b@, s as int, e as int, ncomp as int, c as int) =~= samp@
                    + rest);
            }
        }
    }
    assert(sof_samp(b@, s as int, e as int, ncomp as int, n as int) == Seq::<(u8, u8)>::empty());
    assert(samp@ + Seq::<(u8, u8)>::empty() =~= samp@);
}

/// Surveys a JPEG header: quant tables, frame size, sampling factors, coding
/// mode, APPn markers, and whether SOS was reached. `None` exactly when the
/// data does not open with SOI.
pub fn parse_header(b: &[u8]) -> (r: Option<Header>)
    ensures
        r is None <==> !starts_with_soi(b@),
        r matches Some(h) ==> h@ == scan_header(b@, 2, empty_header()),
{
    if b.len() < 4 || b[0] != 0xFF || b[1] != 0xD8 {
        return None;
    }
    let mut h = Header {
        tables: Vec::new(),
        width: 0,
        height: 0,
        ncomp: 0,
        samp: Vec::new(),
        progressive: false,
        saw_sos: false,
        app_markers: Vec::new(),
    };
    assert(tables_view(h.tables@) =~= Seq::<(u8, u8, Seq<u16>)>::empty());
    assert(h@ =~= empty_header());
    let mut i: usize = 2;
    while i < b.len() && b.len() - i > 3
        invariant
            2 <= i <= b.len(),
            starts_with_soi(b@),
            scan_header(b@, i as int, h@) == scan_header(b@, 2, empty_header()),
        ensures
            h@ == scan_header(b@, 2, empty_header()),
        decreases b.len() - i,
    {
        if b[i] != 0xFF {
            i += 1;
            continue;
        }
        let m = b[i + 1];
        if m == 0xD8 || m == 0x01 || (0xD0 <= m && m <= 0xD7) {
            i += 2;
            continue;
        }
        if m == 0xD9 {
            break;
        }
        let len = (b[i + 2] as usize) * 256 + b[i + 3] as usize;
        if len < 2 || len > b.len() - i - 2 {
            break;
        }
        let s = i + 4;
        let e = i + 2 + len;
        let ghost st = h@;
        if m == 0xDA {
            h.saw_sos = true;
            assert(h@ =~= HeaderSpec { saw_sos: true, ..st });
            return Some(h);
        }
        if m == 0xDB {
            push_dqt_tables(b, s, e, &mut h.tables);
        } else if m == 0xC0 || m == 0xC1 || m == 0xC2 || m == 0xC3 || m == 0xC5 || m == 0xC6
            || m == 0xC7 || m == 0xC9 || m == 0xCA || m == 0xCB || m == 0xCD || m == 0xCE
            || m == 0xCF {
            h.progressive = m == 0xC2 || m == 0xC6 || m == 0xCA || m == 0xCE;
            if e - s >= 6 {
                h.height = ((b[s + 1] as u32) * 256 + b[s + 2] as u32) as u32;
                h.width = ((b[s + 3] as u32) * 256 + b[s + 4] as u32) as u32;
                h.ncomp = b[s + 5];
                push_sof_samp(b, s, e, b[s + 5], &mut h.samp);
            }
        } else if 0xE0 <= m && m <= 0xEF {
            h.app_markers.push(m - 0xE0);
        }
        assert(h@ =~= apply_segment(st, b@, m, s as int, e as int));
        i = e;
    }
    Some(h)
}

/// JPEG files start FF D8 FF.
pub open spec fn is_jpeg_spec(b: Seq<u8>) -> bool {
    b.len() > 3 && b[0] == 0xFF && b[1] == 0xD8 && b[2] == 0xFF
}

/// JPEG files start FF D8 FF; anything else is reported, not guessed at.
pub fn is_jpeg(b: &[u8]) -> (r: bool)
    ensures
        r == is_jpeg_spec(b@),
{
    b.len() > 3 && b[0] == 0xFF && b[1] == 0xD8 && b[2] == 0xFF
}

/// Outcome of looking for the first 8-bit luma quant table.
pub enum DqtFind {
    /// The table, in natural order.
    Found(Seq<u16>),
    /// No such table before SOS, EOI, the data end or a truncated segment.
    Absent,
    /// A DQT segment too short to hold its own first byte.
    Malformed,
}

/// The first 8-bit destination-0 quant table from position `i` on. Unlike the
/// full survey, a length below 2 is not checked here; a DQT segment with a
/// length below 3 is `Malformed`.
pub open spec fn scan_luma_dqt(b: Seq<u8>, i: int) -> DqtFind
    decreases b.len() - i,
{
    if i < 0 || !(i + 3 < b.len()) {
        DqtFind::Absent
    } else if b[i] != 0xFF {
        scan_luma_dqt(b, i + 1)
    } else {
        let m = b[i + 1];
        if is_standalone(m) {
            scan_luma_dqt(b, i + 2)
        } else if m == 0xD9 {
            DqtFind::Absent
        } else {
            let len = be16(b, i + 2);
            if i + 2 + len > b.len() {
                DqtFind::Absent
            } else if m == 0xDB && len < 3 {
                DqtFind::Malformed
            } else if m == 0xDB && b[i + 4] == 0 && len - 2 >= 65 {
                DqtFind::Found(dqt_natural(b, i + 5, 0))
            } else if m == 0xDA {
                DqtFind::Absent
            } else {
                scan_luma_dqt(b, i + 2 + len)
            }
        }
    }
}

proof fn lemma_pq_tq_zero(x: u8)
    ensures
        (x >> 4u8 == 0 && x & 15u8 == 0) <==> x == 0,
{
    assert((x >> 4u8 == 0 && x & 15u8 == 0) <==> x == 0) by (bit_vector);
}

/// The first baseline (8-bit) luma quant table (destination 0), in natural
/// order, or `None` when SOS, EOI, the data end, a truncated segment or a DQT
/// segment too short to hold its first byte comes first.
pub fn dqt_luma(data: &[u8]) -> (r: Option<[u16; 64]>)
    ensures
        match scan_luma_dqt(data@, 2) {
            DqtFind::Found(t) => r matches Some(x) && x@ == t,
            _ => r is None,
        },
{
    let mut i: usize = 2;
    while i < data.len() && data.len() - i > 3
        invariant
            2 <= i,
            i <= data.len() || i == 2,
            scan_luma_dqt(data@, i as int) == scan_luma_dqt(data@, 2),
        ensures
            !(scan_luma_dqt(data@, 2) is Found),
        decreases data.len() - i,
    {
        if data[i] != 0xFF {
            i += 1;
            continue;
        }
        let m = data[i + 1];
        if m == 0xD8 || m == 0x01 || (0xD0 <= m && m <= 0xD7) {
            i += 2;
            continue;
        }
        if m == 0xD9 {
            break;
        }
        let len = (data[i + 2] as usize) * 256 + data[i + 3] as usize;
        if len > data.len() - i - 2 {
            break;
        }
        if m == 0xDB {
            if len < 3 {
                return None;
            }
            let s = i + 4;
            let x = data[s];
            let (pq, tq) = (x >> 4u8, x & 15u8);
            proof {
                lemma_pq_tq_zero(x);
            }
            if tq == 0 && pq == 0 && len - 2 >= 65 {
                let t = read_dqt_table(data, s + 1, 0);
                return Some(t);
            }
        }
        if m == 0xDA {
            break;
        }
        i += 2 + len;
    }
    None
}

/// The first table whose leading byte is zero (baseline precision,
/// destination 0), in natural order: the same table `dqt_luma` finds.
pub fn super_dqt(data: &[u8]) -> (r: Option<[u16; 64]>)
    ensures
        match scan_luma_dqt(data@, 2) {
            DqtFind::Found(t) => r matches Some(x) && x@ == t,
            _ => r is None,
        },
{
    let mut i: usize = 2;
    while i < data.len() && data.len() - i > 3
        invariant
            2 <= i,
            i <= data.len() || i == 2,
            scan_luma_dqt(data@, i as int) == scan_luma_dqt(data@, 2),
        ensures
            !(scan_luma_dqt(data@, 2) is Found),
        decreases data.len() - i,
    {
        if data[i] != 0xFF {
            i += 1;
            continue;
        }
        let m = data[i + 1];
        if m == 0xD8 || m == 0x01 || (0xD0 <= m && m <= 0xD7) {
            i += 2;
            continue;
        }
        if m == 0xD9 {
            break;
        }
        let len = (data[i + 2] as usize) * 256 + data[i + 3] as usize;
        if len > data.len() - i - 2 {
            break;
        }
        if m == 0xDB {
            if len < 3 {
                return None;
            }
            let s = i + 4;
            if data[s] == 0 && len - 2 >= 65 {
                let t = read_dqt_table(data, s + 1, 0);
                return Some(t);
            }
        }
        if m == 0xDA {
            break;
        }
        i += 2 + len;
    }
    None
}

/// What the survey has gathered is never dropped: sampling factors and quant
/// tables already recorded stay, in place, at the front of the final lists.
proof fn lemma_scan_keeps_prefix(b: Seq<u8>, i: int, st: HeaderSpec)
    ensures
        scan_header(b, i, st).samp.len() >= st.samp.len(),
        forall|j: int| 0 <= j < st.samp.len() ==> #[trigger] scan_header(b, i, st).samp[j] == st.samp[j],
        scan_header(b, i, st).tables.len() >= st.tables.len(),
        forall|j: int|
            0 <= j < st.tables.len() ==> #[trigger] scan_header(b, i, st).tables[j] == st.tables[j],
    decreases b.len() - i,
{
    if i < 0 || !(i + 3 < b.len()) {
    } else if b[i] != 0xFF {
        lemma_scan_keeps_prefix(b, i + 1, st);
    } else {
        let m = b[i + 1];
        if is_standalone(m) {
            lemma_scan_keeps_prefix(b, i + 2, st);
        } else if m == 0xD9 {
        } else {
            let len = be16(b, i + 2);
            if len < 2 || len > b.len() - i - 2 {
            } else if m == 0xDA {
            } else {
                let st2 = apply_segment(st, b, m, i + 4, i + 2 + len);
                lemma_scan_keeps_prefix(b, i + 2 + len, st2);
                assert(st2.samp.len() >= st.samp.len());
                assert(forall|j: int| 0 <= j < st.samp.len() ==> st2.samp[j] == st.samp[j]);
                assert(st2.tables.len() >= st.tables.len());
                assert(forall|j: int| 0 <= j < st.tables.len() ==> st2.tables[j] == st.tables[j]);
            }
        }
    }
}

/// The sampling entries of a frame header whose component entries all fit.
proof fn lemma_sof_samp_at(b: Seq<u8>, s: int, e: int, n: int, c0: int)
    requires
        0 <= c0 <= n,
        3 * n + 4 < e - s,
    ensures
        sof_samp(b, s, e, n, c0).len() == n - c0,
        forall|c: int|
            c0 <= c < n ==> #[trigger] sof_samp(b, s, e, n, c0)[c - c0] == (
                b[s + 7 + 3 * c] >> 4u8,
                b[s + 7 + 3 * c] & 0x0Fu8,
            ),
    decreases n - c0,
{
    if c0 < n {
        lemma_sof_samp_at(b, s, e, n, c0 + 1);
        let here = seq![(b[s + 7 + 3 * c0] >> 4u8, b[s + 7 + 3 * c0] & 0x0Fu8)];
        assert(sof_samp(b, s, e, n, c0) == here + sof_samp(b, s, e, n, c0 + 1));
        assert forall|c: int| c0 <= c < n implies #[trigger] sof_samp(b, s, e, n, c0)[c - c0] == (
            b[s + 7 + 3 * c] >> 4u8,
            b[s + 7 + 3 * c] & 0x0Fu8,
        ) by {
            if c > c0 {
                assert(sof_samp(b, s, e, n, c0)[c - c0] == sof_samp(b, s, e, n, c0 + 1)[c - (c0 + 1)]);
            }
        }
    }
}

/// The high and low nibbles of a byte.
proof fn lemma_nibbles(x: u8)
    ensures
        (x >> 4u8) as int == x as int / 16,
        (x & 0x0Fu8) as int == x as int % 16,
{
    assert((x >> 4u8) as int == x as int / 16 && (x & 0x0Fu8) as int == x as int % 16) by (bit_vector);
}

/// Sampling factors are read as the JPEG frame header lays them out: in a
/// file that opens with SOI and a frame header whose component entries all
/// fit, component `c`'s entry in the survey is (horizontal, vertical) = (high
/// nibble, low nibble) of its sampling byte, byte `7 + 3c` of the payload.
pub proof fn lemma_frame_sampling_nibbles(b: Seq<u8>, c: int)
    requires
        b.len() >= 12,
        b[0] == 0xFF,
        b[1] == 0xD8,
        b[2] == 0xFF,
        is_sof(b[3]),
        3 * b[11] + 8 <= b[4] * 256 + b[5],
        4 + (b[4] * 256 + b[5]) <= b.len(),
        0 <= c < b[11],
    ensures
        c < scan_header(b, 2, empty_header()).samp.len(),
        scan_header(b, 2, empty_header()).samp[c].0 == b[13 + 3 * c] as int / 16,
        scan_header(b, 2, empty_header()).samp[c].1 == b[13 + 3 * c] as int % 16,
{
    let len = be16(b, 4int);
    let st2 = apply_segment(empty_header(), b, b[3], 6, 4 + len);
    assert(scan_header(b, 2, empty_header()) == scan_header(b, 2 + 2 + len, st2));
    lemma_sof_samp_at(b, 6, 4 + len, b[11] as int, 0);
    assert(st2.samp =~= sof_samp(b, 6, 4 + len, b[11] as int, 0));
    lemma_scan_keeps_prefix(b, 2 + 2 + len, st2);
    assert(st2.samp[c - 0] == (b[6 + 7 + 3 * c] >> 4u8, b[6 + 7 + 3 * c] & 0x0Fu8));
    lemma_nibbles(b[13 + 3 * c]);
}

/// Quant tables are read as the JPEG DQT segment lays them out: in a file
/// that opens with SOI and a DQT segment holding a whole table, the first
/// table surveyed has destination the low nibble and precision the high
/// nibble of the segment's first byte, and its entry at zigzag position `k`
/// (natural position `zz(k)`) is body byte `k` for 8-bit tables, and the
/// big-endian pair of body bytes `2k`, `2k + 1` for 16-bit tables.
pub proof fn lemma_first_dqt_table(b: Seq<u8>, k: int)
    requires
        b.len() >= 7,
        b[0] == 0xFF,
        b[1] == 0xD8,
        b[2] == 0xFF,
        b[3] == 0xDB,
        3 + (if b[6] as int / 16 == 0 { 64int } else { 128int }) <= b[4] * 256 + b[5],
        4 + (b[4] * 256 + b[5]) <= b.len(),
        0 <= k < 64,
    ensures
        scan_header(b, 2, empty_header()).tables.len() >= 1,
        scan_header(b, 2, empty_header()).tables[0].0 == b[6] as int % 16,
        scan_header(b, 2, empty_header()).tables[0].1 == b[6] as int / 16,
        scan_header(b, 2, empty_header()).tables[0].2.len() == 64,
        scan_header(b, 2, empty_header()).tables[0].2[zz(k)] == if b[6] as int / 16 == 0 {
            b[7 + k] as int
        } else {
            b[7 + 2 * k] as int * 256 + b[8 + 2 * k] as int
        },
{
    let len = be16(b, 4int);
    let e = 4 + len;
    let st2 = apply_segment(empty_header(), b, 0xDB, 6, e);
    assert(scan_header(b, 2, empty_header()) == scan_header(b, 2 + 2 + len, st2));
    lemma_nibbles(b[6]);
    let pq = b[6] >> 4u8;
    let tq = b[6] & 0x0Fu8;
    assert(dqt_tables(b, 6, e) == seq![(tq, pq, dqt_natural(b, 7, pq))] + dqt_tables(
        b,
        7 + dqt_body_len(pq),
        e,
    ));
    assert(st2.tables =~= dqt_tables(b, 6, e));
    assert(st2.tables[0] == (tq, pq, dqt_natural(b, 7, pq)));
    lemma_scan_keeps_prefix(b, 2 + 2 + len, st2);
    lemma_zigzag_is_permutation();
    assert(0 <= zz(k) < 64 && nz(zz(k)) == k);
    assert(dqt_natural(b, 7, pq)[zz(k)] == dqt_value(b, 7, pq, k));
}

} // verus!
