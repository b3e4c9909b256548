//! Small text helpers of the eval tools: matching a file against the pinned
//! eval split, telling a reference's provenance from its name, and pulling
//! one field out of a flat JSON line.
use vstd::prelude::*;

verus! {

/// Suffix that marks a downscaled-to-pristine replacement of a file.
pub const PRISTINE_MARK: [char; 10] = ['_', '_', 'p', 'r', 'i', 's', 't', 'i', 'n', 'e'];

/// Index of the last `c` in `s`, or -1.
pub open spec fn last_index_of(s: Seq<char>, c: char) -> int
    decreases s.len(),
{
    if s.len() == 0 {
        -1
    } else if s.last() == c {
        s.len() - 1
    } else {
        last_index_of(s.drop_last(), c)
    }
}

/// `pat` occurs in `s` at position `i`.
pub open spec fn occurs_at(s: Seq<char>, pat: Seq<char>, i: int) -> bool {
    0 <= i && i + pat.len() <= s.len() && s.subrange(i, i + pat.len()) == pat
}

/// First position at or after `i` where `pat` occurs in `s`, or -1.
pub open spec fn find_from(s: Seq<char>, pat: Seq<char>, i: int) -> int
    decreases s.len() + 1 - i,
{
    if i < 0 || i + pat.len() > s.len() {
        -1
    } else if occurs_at(s, pat, i) {
        i
    } else {
        find_from(s, pat, i + 1)
    }
}

/// Basename without extension, with any `__pristine...` suffix removed, so
/// that a downscaled-to-pristine replacement still matches the original it
/// was derived from.
pub open spec fn pinned_stem_spec(s: Seq<char>) -> Seq<char> {
    let d = last_index_of(s, '.');
    let base = if d >= 0 { s.subrange(0, d) } else { s };
    let j = find_from(base, PRISTINE_MARK@, 0);
    if j >= 0 { base.subrange(0, j) } else { base }
}

/// The characters of `s`.
pub(crate) fn chars_of(s: &str) -> (r: Vec<char>)
    ensures
        r@ == s@,
{
    let n = s.unicode_len();
    let mut v: Vec<char> = Vec::new();
    let mut i: usize = 0;
    while i < n
        invariant
            n == s@.len(),
            i <= n,
            v@ == s@.subrange(0, i as int),
        decreases n - i,
    {
        let c = s.get_char(i);
        v.push(c);
        assert(v@ =~= s@.subrange(0, i as int + 1));
        i = i + 1;
    }
    assert(v@ =~= s@);
    v
}

/// Whether `pat` occurs in `s` at position `i`.
fn matches_at(s: &Vec<char>, pat: &[char], i: usize) -> (r: bool)
    requires
        i + pat.len() <= s.len(),
    ensures
        r == occurs_at(s@, pat@, i as int),
{
    let mut k: usize = 0;
    while k < pat.len()
        invariant
            i + pat.len() <= s.len(),
            k <= pat@.len(),
            forall|j: int| 0 <= j < k ==> s@[i + j] == pat@[j],
        decreases pat.len() - k,
    {
        if s[i + k] != pat[k] {
            assert(s@.subrange(i as int, i + pat@.len())[k as int] != pat@[k as int]);
            return false;
        }
        k = k + 1;
    }
    assert(s@.subrange(i as int, i + pat@.len()) =~= pat@);
    true
}

/// First position at or after `from` where `pat` occurs in `s[..end]`, or
/// `end`-independent -1 when there is none.
fn find_in(s: &Vec<char>, end: usize, pat: &[char], from: usize) -> (r: Option<usize>)
    requires
        end <= s@.len(),
        from <= end,
    ensures
        match r {
            Some(j) => j == find_from(s@.subrange(0, end as int), pat@, from as int),
            None => find_from(s@.subrange(0, end as int), pat@, from as int) == -1,
        },
{
    let ghost base = s@.subrange(0, end as int);
    let mut i = from;
    while pat.len() <= end - i
        invariant
            end <= s@.len(),
            from <= i <= end,
            base == s@.subrange(0, end as int),
            find_from(base, pat@, from as int) == find_from(base, pat@, i as int),
        decreases end + 1 - i,
    {
        let m = matches_at(s, pat, i);
        assert(occurs_at(base, pat@, i as int) == occurs_at(s@, pat@, i as int)) by {
            assert(base.subrange(i as int, i + pat@.len()) =~= s@.subrange(
                i as int,
                i + pat@.len(),
            ));
        }
        if m {
            return Some(i);
        }
        if pat.len() == 0 {
            assert(s@.subrange(i as int, i as int) =~= pat@);
        }
        i = i + 1;
    }
    None
}

/// Stem used to match a file against the pinned eval list: basename without
/// extension, with any `__pristine` suffix removed so a
/// downscaled-to-pristine replacement still matches its original.
pub fn pinned_stem(fname: &str) -> (r: String)
    ensures
        r@ == pinned_stem_spec(fname@),
{
    let cs = chars_of(fname);
    let n = cs.len();
    let mut i = n;
    assert(fname@.subrange(0, n as int) =~= fname@);
    while i > 0 && cs[i - 1] != '.'
        invariant
            n == fname@.len(),
            cs@ == fname@,
            i <= n,
            last_index_of(fname@, '.') == last_index_of(fname@.subrange(0, i as int), '.'),
        decreases i,
    {
        assert(fname@.subrange(0, i as int).drop_last() =~= fname@.subrange(0, i as int - 1));
        i = i - 1;
    }
    if i == 0 {
        assert(fname@.subrange(0, 0) =~= Seq::<char>::empty());
    }
    let end = if i > 0 { i - 1 } else { n };
    let ghost d = last_index_of(fname@, '.');
    assert(d >= 0 ==> end == d);
    assert(d < 0 ==> end == n);
    let cut = match find_in(&cs, end, &PRISTINE_MARK, 0) {
        Some(j) => j,
        None => end,
    };
    proof {
        let base = if d >= 0 { fname@.subrange(0, d) } else { fname@ };
        assert(base =~= fname@.subrange(0, end as int));
        let j = find_from(base, PRISTINE_MARK@, 0);
        if j >= 0 {
            lemma_find_bounds(base, PRISTINE_MARK@, 0);
        }
    }
    let stem = fname.substring_char(0, cut);
    assert(stem@ =~= pinned_stem_spec(fname@));
    String::from_str(stem)
}

/// A found position lies inside the sequence.
proof fn lemma_find_bounds(s: Seq<char>, pat: Seq<char>, i: int)
    requires
        find_from(s, pat, i) >= 0,
    ensures
        i <= find_from(s, pat, i),
        find_from(s, pat, i) + pat.len() <= s.len(),
    decreases s.len() + 1 - i,
{
    if !(i < 0 || i + pat.len() > s.len()) && !occurs_at(s, pat, i) {
        lemma_find_bounds(s, pat, i + 1);
    }
}

/// `c` does not occur in `s`.
pub open spec fn lacks(s: Seq<char>, c: char) -> bool {
    forall|i: int| 0 <= i < s.len() ==> s[i] != c
}

/// With no `c` after it, the last `c` is the one placed after `a`.
proof fn lemma_last_index_after(a: Seq<char>, c: char, t: Seq<char>)
    requires
        lacks(t, c),
    ensures
        last_index_of(a + seq![c] + t, c) == a.len(),
    decreases t.len(),
{
    let all = a + seq![c] + t;
    if t.len() == 0 {
        assert(all.last() == c);
    } else {
        assert(all.drop_last() =~= a + seq![c] + t.drop_last());
        assert(all.last() == t.last());
        lemma_last_index_after(a, c, t.drop_last());
    }
}

/// A search that finds nothing rules out every position from its start.
proof fn lemma_find_none(s: Seq<char>, pat: Seq<char>, i: int, j: int)
    requires
        find_from(s, pat, i) == -1,
        0 <= i <= j,
    ensures
        !occurs_at(s, pat, j),
    decreases j - i,
{
    if i < j && !(i + pat.len() > s.len()) {
        lemma_find_none(s, pat, i + 1, j);
    }
}

/// The first position where `pat` occurs is what the search finds.
proof fn lemma_find_first(s: Seq<char>, pat: Seq<char>, i: int, t: int)
    requires
        0 <= i <= t,
        occurs_at(s, pat, t),
        forall|j: int| i <= j < t ==> !occurs_at(s, pat, j),
    ensures
        find_from(s, pat, i) == t,
    decreases t - i,
{
    if i < t {
        lemma_find_first(s, pat, i + 1, t);
    }
}

/// The mark has no proper border: only its first two characters are `_`.
proof fn lemma_mark_chars()
    ensures
        PRISTINE_MARK@.len() == 10,
        PRISTINE_MARK@[0] == '_',
        PRISTINE_MARK@[1] == '_',
        PRISTINE_MARK@[2] == 'p',
        forall|k: int| 2 <= k < 10 ==> PRISTINE_MARK@[k] != '_',
{
}

/// Appended after a stem that does not contain it, the mark is first found
/// where it was appended.
proof fn lemma_mark_first(stem: Seq<char>, tag: Seq<char>)
    requires
        find_from(stem, PRISTINE_MARK@, 0) == -1,
    ensures
        find_from(stem + PRISTINE_MARK@ + tag, PRISTINE_MARK@, 0) == stem.len(),
{
    let m = PRISTINE_MARK@;
    let n = stem.len() as int;
    let base = stem + m + tag;
    lemma_mark_chars();
    assert(base.subrange(n, n + 10) =~= m);
    assert forall|j: int| 0 <= j < n implies !occurs_at(base, m, j) by {
        if occurs_at(base, m, j) {
            if j + 10 <= n {
                lemma_find_none(stem, m, 0, j);
                assert(stem.subrange(j, j + 10) =~= base.subrange(j, j + 10));
            } else {
                let d = n - j;
                assert(base[n] == m[0]);
                assert(base[n + 1] == m[1]);
                assert(base.subrange(j, j + 10)[d] == base[n]);
                assert(base.subrange(j, j + 10)[d + 1] == base[n + 1]);
            }
        }
    }
    lemma_find_first(base, m, 0, n);
}

/// A downscaled-to-pristine replacement matches the original it was derived
/// from: for a stem without a `__pristine` mark (dots allowed), the stem of
/// `stem + "__pristine" + tag + "." + ext` and of `stem + "." + ext` is the
/// stem, whatever tag and dot-free extension follow.
pub proof fn lemma_pristine_matches_original(stem: Seq<char>, tag: Seq<char>, ext: Seq<char>)
    requires
        lacks(ext, '.'),
        find_from(stem, PRISTINE_MARK@, 0) == -1,
    ensures
        pinned_stem_spec(stem + PRISTINE_MARK@ + tag + seq!['.'] + ext) == stem,
        pinned_stem_spec(stem + seq!['.'] + ext) == stem,
{
    let n = stem.len() as int;
    lemma_last_index_after(stem, '.', ext);
    assert((stem + seq!['.'] + ext).subrange(0, n) =~= stem);
    let base = stem + PRISTINE_MARK@ + tag;
    lemma_last_index_after(base, '.', ext);
    assert((base + seq!['.'] + ext).subrange(0, base.len() as int) =~= base);
    lemma_mark_first(stem, tag);
    assert(base.subrange(0, n) =~= stem);
}

/// ASCII lowercase of a character; other characters unchanged.
pub open spec fn ascii_lower(c: char) -> char {
    if 'A' <= c <= 'Z' {
        ((c as int) + 32) as char
    } else {
        c
    }
}

/// The name ends in `.png`, compared ASCII case-insensitively.
pub open spec fn ends_png(s: Seq<char>) -> bool {
    let n = s.len() as int;
    &&& n >= 4
    &&& s[n - 4] == '.'
    &&& ascii_lower(s[n - 3]) == 'p'
    &&& ascii_lower(s[n - 2]) == 'n'
    &&& ascii_lower(s[n - 1]) == 'g'
}

/// ASCII lowercase of a character.
fn to_lower(c: char) -> (r: char)
    ensures
        r == ascii_lower(c),
{
    if 'A' <= c && c <= 'Z' {
        ((c as u32) + 32) as u8 as char
    } else {
        c
    }
}

/// Provenance of a reference image: `"png"` if the ground truth is lossless,
/// `"jpg"` if the reference is itself a JPEG.
pub fn gt_src_of(fname: &str) -> (r: &'static str)
    ensures
        r@ == (if ends_png(fname@) { "png"@ } else { "jpg"@ }),
{
    let n = fname.unicode_len();
    if n >= 4 && fname.get_char(n - 4) == '.' && to_lower(fname.get_char(n - 3)) == 'p' && to_lower(
        fname.get_char(n - 2),
    ) == 'n' && to_lower(fname.get_char(n - 1)) == 'g' {
        "png"
    } else {
        "jpg"
    }
}

/// Unicode White_Space, the property behind `char::is_whitespace`.
pub open spec fn white_space(c: char) -> bool {
    let u = c as u32;
    ||| 0x09 <= u <= 0x0d
    ||| u == 0x20
    ||| u == 0x85
    ||| u == 0xa0
    ||| u == 0x1680
    ||| 0x2000 <= u <= 0x200a
    ||| u == 0x2028
    ||| u == 0x2029
    ||| u == 0x202f
    ||| u == 0x205f
    ||| u == 0x3000
}

/// Whether `c` is Unicode white space.
pub fn is_white_space(c: char) -> (r: bool)
    ensures
        r == white_space(c),
{
    let u = c as u32;
    (0x09 <= u && u <= 0x0d) || u == 0x20 || u == 0x85 || u == 0xa0 || u == 0x1680 || (0x2000 <= u
        && u <= 0x200a) || u == 0x2028 || u == 0x2029 || u == 0x202f || u == 0x205f || u == 0x3000
}

/// First index at or after `i` whose character is not white space, or the
/// length.
pub open spec fn skip_ws(s: Seq<char>, i: int) -> int
    decreases s.len() - i,
{
    if i >= s.len() {
        s.len() as int
    } else if !white_space(s[i]) {
        i
    } else {
        skip_ws(s, i + 1)
    }
}

/// First index at or after `i` holding `c`, or the length.
pub open spec fn scan_to(s: Seq<char>, i: int, c: char) -> int
    decreases s.len() - i,
{
    if i >= s.len() {
        s.len() as int
    } else if s[i] == c {
        i
    } else {
        scan_to(s, i + 1, c)
    }
}

/// First index at or after `i` holding `,` or `}`, or the length.
pub open spec fn scan_to_delim(s: Seq<char>, i: int) -> int
    decreases s.len() - i,
{
    if i >= s.len() {
        s.len() as int
    } else if s[i] == ',' || s[i] == '}' {
        i
    } else {
        scan_to_delim(s, i + 1)
    }
}

/// End of `s[lo..hi]` once trailing white space is dropped.
pub open spec fn trim_end(s: Seq<char>, lo: int, hi: int) -> int
    decreases hi - lo,
{
    if hi > lo && white_space(s[hi - 1]) {
        trim_end(s, lo, hi - 1)
    } else {
        hi
    }
}

/// The JSON key pattern `"key":`.
pub open spec fn key_pattern(key: Seq<char>) -> Seq<char> {
    seq!['"'] + key + seq!['"', ':']
}

/// The value of `key` in a flat JSON line: a quoted string up to its
/// closing quote (none when the quote never closes), or a bare value up to
/// the next `,` or `}`, trimmed; none when the key is absent.
pub open spec fn field_spec(line: Seq<char>, key: Seq<char>) -> Option<Seq<char>> {
    let pat = key_pattern(key);
    let i = find_from(line, pat, 0);
    if i < 0 {
        None
    } else {
        let p = skip_ws(line, i + pat.len());
        if p < line.len() && line[p] == '"' {
            let j = scan_to(line, p + 1, '"');
            if j < line.len() {
                Some(line.subrange(p + 1, j))
            } else {
                None
            }
        } else {
            let j = scan_to_delim(line, p);
            Some(line.subrange(p, trim_end(line, p, j)))
        }
    }
}

/// Where a scan stops lies between its start and the end.
pub proof fn lemma_scans_in_range(s: Seq<char>, i: int, c: char)
    requires
        0 <= i <= s.len(),
    ensures
        i <= skip_ws(s, i) <= s.len(),
        i <= scan_to(s, i, c) <= s.len(),
        i <= scan_to_delim(s, i) <= s.len(),
    decreases s.len() - i,
{
    if i < s.len() {
        lemma_scans_in_range(s, i + 1, c);
    }
}

/// A trimmed end stays within its range.
pub proof fn lemma_trim_end_in_range(s: Seq<char>, lo: int, hi: int)
    requires
        lo <= hi,
    ensures
        lo <= trim_end(s, lo, hi) <= hi,
    decreases hi - lo,
{
    if hi > lo && white_space(s[hi - 1]) {
        lemma_trim_end_in_range(s, lo, hi - 1);
    }
}

/// `"key":` as characters.
fn key_pattern_of(key: &str) -> (r: Vec<char>)
    ensures
        r@ == key_pattern(key@),
{
    let mut v: Vec<char> = Vec::new();
    v.push('"');
    let k = chars_of(key);
    let mut i: usize = 0;
    while i < k.len()
        invariant
            i <= k@.len(),
            k@ == key@,
            v@ == seq!['"'] + key@.subrange(0, i as int),
        decreases k.len() - i,
    {
        v.push(k[i]);
        assert(v@ =~= seq!['"'] + key@.subrange(0, i as int + 1));
        i = i + 1;
    }
    v.push('"');
    v.push(':');
    assert(v@ =~= key_pattern(key@));
    v
}

/// First non-white-space index at or after `i`.
pub(crate) fn skip_ws_from(s: &Vec<char>, i: usize) -> (r: usize)
    requires
        i <= s@.len(),
    ensures
        r == skip_ws(s@, i as int),
{
    let mut j = i;
    while j < s.len() && is_white_space(s[j])
        invariant
            i <= j <= s@.len(),
            skip_ws(s@, i as int) == skip_ws(s@, j as int),
        decreases s.len() - j,
    {
        j = j + 1;
    }
    j
}

/// The value of `key` in a flat JSON line (`"key": value`): a quoted string
/// without its quotes, or a bare value up to the next `,` or `}`, trimmed.
pub fn field<'a>(line: &'a str, key: &str) -> (r: Option<&'a str>)
    ensures
        match field_spec(line@, key@) {
            Some(v) => r is Some && r->0@ == v,
            None => r is None,
        },
{
    let cs = chars_of(line);
    let n = cs.len();
    let pat = key_pattern_of(key);
    assert(cs@.subrange(0, n as int) =~= cs@);
    let i = match find_in(&cs, n, pat.as_slice(), 0) {
        None => {
            return None;
        },
        Some(i) => i,
    };
    proof {
        lemma_find_bounds(line@, pat@, 0);
    }
    let p = skip_ws_from(&cs, i + pat.len());
    proof {
        lemma_scans_in_range(line@, i + pat@.len(), '"');
    }
    if p < n && cs[p] == '"' {
        let mut j = p + 1;
        while j < n && cs[j] != '"'
            invariant
                n == line@.len(),
                cs@ == line@,
                p + 1 <= j <= n,
                scan_to(line@, p as int + 1, '"') == scan_to(line@, j as int, '"'),
            decreases n - j,
        {
            j = j + 1;
        }
        if j < n {
            Some(line.substring_char(p + 1, j))
        } else {
            None
        }
    } else {
        let mut j = p;
        while j < n && cs[j] != ',' && cs[j] != '}'
            invariant
                n == line@.len(),
                cs@ == line@,
                p <= j <= n,
                scan_to_delim(line@, p as int) == scan_to_delim(line@, j as int),
            decreases n - j,
        {
            j = j + 1;
        }
        let mut e = j;
        while e > p && is_white_space(cs[e - 1])
            invariant
                n == line@.len(),
                cs@ == line@,
                p <= e <= j <= n,
                trim_end(line@, p as int, j as int) == trim_end(line@, p as int, e as int),
            decreases e,
        {
            e = e - 1;
        }
        Some(line.substring_char(p, e))
    }
}

/// Whether `c` is alphabetic or numeric in the Unicode sense, as
/// `char::is_alphanumeric` decides it.
pub uninterp spec fn alphanumeric(c: char) -> bool;

/// Calls `char::is_alphanumeric`. Its result depends on `c` alone (Unicode
/// Alphabetic or Numeric); for ASCII that is exactly the letters and digits.
#[verifier::external_body]
fn is_alphanumeric(c: char) -> (r: bool)
    ensures
        r == alphanumeric(c),
        (c as u32) < 128 ==> (r <==> ('0' <= c <= '9' || 'a' <= c <= 'z' || 'A' <= c <= 'Z')),
{
    c.is_alphanumeric()
}

/// First index at or after `i` whose character is not `c`, or the length.
pub open spec fn skip_char(s: Seq<char>, i: int, c: char) -> int
    decreases s.len() - i,
{
    if i >= s.len() {
        s.len() as int
    } else if s[i] != c {
        i
    } else {
        skip_char(s, i + 1, c)
    }
}

/// A character of an identifier-like metadata value.
pub open spec fn word_char(c: char) -> bool {
    alphanumeric(c) || c == '_'
}

/// First index at or after `i` whose character is not a word character, or
/// the length.
pub open spec fn word_end(s: Seq<char>, i: int) -> int
    decreases s.len() - i,
{
    if i >= s.len() {
        s.len() as int
    } else if !word_char(s[i]) {
        i
    } else {
        word_end(s, i + 1)
    }
}

/// The value of `key` in a model's metadata JSON: after `"key":`, white
/// space and opening quotes are skipped and the run of alphanumeric or `_`
/// characters is the value; none when the key is absent.
pub open spec fn meta_field_spec(meta: Seq<char>, key: Seq<char>) -> Option<Seq<char>> {
    let pat = key_pattern(key);
    let i = find_from(meta, pat, 0);
    if i < 0 {
        None
    } else {
        let q = skip_char(meta, skip_ws(meta, i + pat.len()), '"');
        Some(meta.subrange(q, word_end(meta, q)))
    }
}

/// Where these scans stop lies between their start and the end.
proof fn lemma_word_scans_in_range(s: Seq<char>, i: int, c: char)
    requires
        0 <= i <= s.len(),
    ensures
        i <= skip_char(s, i, c) <= s.len(),
        i <= word_end(s, i) <= s.len(),
    decreases s.len() - i,
{
    if i < s.len() {
        lemma_word_scans_in_range(s, i + 1, c);
    }
}

/// The identifier-like value of `key` in a model's metadata JSON, or `None`
/// when the key is missing.
pub fn meta_field(meta: &str, key: &str) -> (r: Option<String>)
    ensures
        match meta_field_spec(meta@, key@) {
            Some(v) => r is Some && r->0@ == v,
            None => r is None,
        },
{
    let cs = chars_of(meta);
    let n = cs.len();
    let pat = key_pattern_of(key);
    assert(cs@.subrange(0, n as int) =~= cs@);
    let i = match find_in(&cs, n, pat.as_slice(), 0) {
        None => {
            return None;
        },
        Some(i) => i,
    };
    proof {
        lemma_find_bounds(meta@, pat@, 0);
        lemma_scans_in_range(meta@, i + pat@.len(), '"');
    }
    let p = skip_ws_from(&cs, i + pat.len());
    let mut q = p;
    while q < n && cs[q] == '"'
        invariant
            n == meta@.len(),
            cs@ == meta@,
            p <= q <= n,
            skip_char(meta@, p as int, '"') == skip_char(meta@, q as int, '"'),
        decreases n - q,
    {
        q = q + 1;
    }
    let mut e = q;
    while e < n && (is_alphanumeric(cs[e]) || cs[e] == '_')
        invariant
            n == meta@.len(),
            cs@ == meta@,
            q <= e <= n,
            word_end(meta@, q as int) == word_end(meta@, e as int),
        decreases n - e,
    {
        e = e + 1;
    }
    Some(String::from_str(meta.substring_char(q, e)))
}

} // verus!
