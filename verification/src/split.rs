//! The eval-split lists: the pinned `dir<TAB>file` list, the held-out half of
//! the effective split (`class/file<TAB>bucket`), and a corpus's
//! `label<TAB>directory` subcorpus list, read line by line from their text.
use vstd::prelude::*;
use crate::text::{
    chars_of, last_index_of, lemma_scans_in_range, lemma_trim_end_in_range, pinned_stem,
    pinned_stem_spec, scan_to, skip_ws, skip_ws_from, trim_end,
};

verus! {

/// A line without one trailing carriage return.
pub open spec fn strip_cr(l: Seq<char>) -> Seq<char> {
    if l.len() > 0 && l.last() == '\r' {
        l.drop_last()
    } else {
        l
    }
}

/// The lines of a text as `str::lines` yields them: split at `\n`, a `\r`
/// right before it dropped, no empty line after a final `\n`.
pub open spec fn lines_of(t: Seq<char>) -> Seq<Seq<char>>
    decreases t.len(),
{
    if t.len() == 0 {
        Seq::empty()
    } else {
        let i = scan_to(t, 0, '\n');
        if i >= t.len() {
            seq![t]
        } else {
            proof {
                lemma_scans_in_range(t, 0, '\n');
            }
            seq![strip_cr(t.subrange(0, i))] + lines_of(t.subrange(i + 1, t.len() as int))
        }
    }
}

/// A scan that passes no `c` before `i` and stops at `i` ends there.
proof fn lemma_scan_to_at(s: Seq<char>, k: int, i: int, c: char)
    requires
        0 <= k <= i <= s.len(),
        forall|j: int| k <= j < i ==> s[j] != c,
        i == s.len() || s[i] == c,
    ensures
        scan_to(s, k, c) == i,
    decreases i - k,
{
    if k < i {
        lemma_scan_to_at(s, k + 1, i, c);
    }
}

/// The lines of `text`, as slices of it.
pub fn split_lines<'a>(text: &'a str) -> (r: Vec<&'a str>)
    ensures
        r@.map_values(|l: &str| l@) == lines_of(text@),
{
    let cs = chars_of(text);
    let n = cs.len();
    let mut out: Vec<&'a str> = Vec::new();
    let mut start: usize = 0;
    assert(text@.subrange(0, n as int) =~= text@);
    while start < n
        invariant
            n == text@.len(),
            cs@ == text@,
            start <= n,
            lines_of(text@) == out@.map_values(|l: &str| l@) + lines_of(
                text@.subrange(start as int, n as int),
            ),
        decreases n - start,
    {
        let mut i = start;
        while i < n && cs[i] != '\n'
            invariant
                n == text@.len(),
                cs@ == text@,
                start <= i <= n,
                forall|j: int| start <= j < i ==> text@[j] != '\n',
            decreases n - i,
        {
            i = i + 1;
        }
        let ghost rest = text@.subrange(start as int, n as int);
        proof {
            lemma_scan_to_at(rest, 0, (i - start) as int, '\n');
        }
        let ghost before = out@.map_values(|l: &str| l@);
        if i == n {
            let l = text.substring_char(start, n);
            out.push(l);
            proof {
                assert(out@.map_values(|l: &str| l@) =~= before.push(rest));
                assert(text@.subrange(n as int, n as int) =~= Seq::<char>::empty());
                assert(lines_of(rest) == seq![rest]);
                assert(before + seq![rest] =~= before.push(rest) + lines_of(
                    text@.subrange(n as int, n as int),
                ));
            }
            start = n;
        } else {
            let e = if i > start && cs[i - 1] == '\r' { i - 1 } else { i };
            let l = text.substring_char(start, e);
            out.push(l);
            proof {
                let line = rest.subrange(0, (i - start) as int);
                assert(l@ =~= strip_cr(line));
                assert(rest.subrange((i - start) as int + 1, rest.len() as int) =~= text@.subrange(
                    i as int + 1,
                    n as int,
                ));
                assert(out@.map_values(|l: &str| l@) =~= before.push(strip_cr(line)));
                assert(lines_of(rest) == seq![strip_cr(line)] + lines_of(
                    text@.subrange(i as int + 1, n as int),
                ));
                assert(before + (seq![strip_cr(line)] + lines_of(
                    text@.subrange(i as int + 1, n as int),
                )) =~= before.push(strip_cr(line)) + lines_of(
                    text@.subrange(i as int + 1, n as int),
                ));
            }
            start = i + 1;
        }
    }
    assert(text@.subrange(n as int, n as int) =~= Seq::<char>::empty());
    assert(out@.map_values(|l: &str| l@) + Seq::<Seq<char>>::empty() =~= out@.map_values(
        |l: &str| l@,
    ));
    out
}

/// The line starts a comment.
pub open spec fn is_comment(l: Seq<char>) -> bool {
    l.len() > 0 && l[0] == '#'
}

/// The line is empty or white space only.
pub open spec fn is_blank(l: Seq<char>) -> bool {
    skip_ws(l, 0) >= l.len()
}

/// The first two tab-separated fields of a line, when it has a tab.
pub open spec fn two_fields(l: Seq<char>) -> Option<(Seq<char>, Seq<char>)> {
    let a = scan_to(l, 0, '\t');
    if a >= l.len() {
        None
    } else {
        Some((l.subrange(0, a), l.subrange(a + 1, scan_to(l, a + 1, '\t'))))
    }
}

/// `s` without leading and trailing white space.
pub open spec fn trim(s: Seq<char>) -> Seq<char> {
    let lo = skip_ws(s, 0);
    s.subrange(lo, trim_end(s, lo, s.len() as int))
}

/// A pinned-list line: `dir<TAB>file` gives `(dir, pinned stem of file)`;
/// comments, blank lines and lines without a tab give nothing.
pub open spec fn pin_line(l: Seq<char>) -> Option<(Seq<char>, Seq<char>)> {
    if is_comment(l) || is_blank(l) {
        None
    } else {
        match two_fields(l) {
            None => None,
            Some((d, f)) => Some((d, pinned_stem_spec(f))),
        }
    }
}

/// The bucket name of the training split.
pub const TRAIN: [char; 5] = ['t', 'r', 'a', 'i', 'n'];

/// A line of the effective split, trimmed: `class/.../file<TAB>bucket` gives
/// `(class, pinned stem of the last path component)` unless the bucket is
/// `train`; comments, blank lines, lines without a tab and paths without a
/// `/` give nothing.
pub open spec fn holdout_line(l0: Seq<char>) -> Option<(Seq<char>, Seq<char>)> {
    let l = trim(l0);
    if l.len() == 0 || l[0] == '#' {
        None
    } else {
        match two_fields(l) {
            None => None,
            Some((path, bucket)) => if bucket == TRAIN@ {
                None
            } else {
                let sl = scan_to(path, 0, '/');
                if sl >= path.len() {
                    None
                } else {
                    let file = path.subrange(sl + 1, path.len() as int);
                    let ls = last_index_of(file, '/');
                    let stem = if ls >= 0 {
                        file.subrange(ls + 1, file.len() as int)
                    } else {
                        file
                    };
                    Some((path.subrange(0, sl), pinned_stem_spec(stem)))
                }
            },
        }
    }
}

/// A subcorpus-list line: `label<TAB>dir` gives both, trimmed; comments,
/// blank lines and lines without a tab give nothing.
pub open spec fn subcorpus_line(l: Seq<char>) -> Option<(Seq<char>, Seq<char>)> {
    if is_comment(l) || is_blank(l) {
        None
    } else {
        match two_fields(l) {
            None => None,
            Some((a, b)) => Some((trim(a), trim(b))),
        }
    }
}

/// What a line parser makes of the lines, in order.
pub open spec fn collect_lines(
    ls: Seq<Seq<char>>,
    f: spec_fn(Seq<char>) -> Option<(Seq<char>, Seq<char>)>,
) -> Seq<(Seq<char>, Seq<char>)>
    decreases ls.len(),
{
    if ls.len() == 0 {
        Seq::empty()
    } else {
        collect_lines(ls.drop_last(), f) + match f(ls.last()) {
            Some(p) => seq![p],
            None => Seq::empty(),
        }
    }
}

/// A pair of strings as character sequences.
pub open spec fn pair_view(p: (String, String)) -> (Seq<char>, Seq<char>) {
    (p.0@, p.1@)
}

/// End of the first field starting at `i`: the next tab, or the end.
fn field_end(cs: &Vec<char>, i: usize) -> (r: usize)
    requires
        i <= cs@.len(),
    ensures
        r == scan_to(cs@, i as int, '\t'),
        i <= r <= cs@.len(),
{
    let mut j = i;
    while j < cs.len() && cs[j] != '\t'
        invariant
            i <= j <= cs@.len(),
            scan_to(cs@, i as int, '\t') == scan_to(cs@, j as int, '\t'),
        decreases cs.len() - j,
    {
        j = j + 1;
    }
    j
}

/// Bounds of the first two tab fields of `cs`: `(a, b)` with the first
/// field `cs[..a]` and the second `cs[a+1..b]`, when there is a tab.
fn fields_of(cs: &Vec<char>) -> (r: Option<(usize, usize)>)
    ensures
        match two_fields(cs@) {
            None => r is None,
            Some((x, y)) => r matches Some((a, b)) && a < cs@.len() && a + 1 <= b && b <= cs@.len()
                && x == cs@.subrange(0, a as int) && y == cs@.subrange(a + 1, b as int),
        },
{
    let a = field_end(cs, 0);
    if a >= cs.len() {
        return None;
    }
    let b = field_end(cs, a + 1);
    Some((a, b))
}

/// A trimmed sub-slice of a character sequence: its bounds.
fn trim_bounds(cs: &Vec<char>, lo: usize, hi: usize) -> (r: (usize, usize))
    requires
        lo <= hi <= cs@.len(),
    ensures
        lo <= r.0 <= r.1 <= hi,
        cs@.subrange(r.0 as int, r.1 as int) == trim(cs@.subrange(lo as int, hi as int)),
{
    let ghost s = cs@.subrange(lo as int, hi as int);
    let mut a = lo;
    while a < hi && crate::text::is_white_space(cs[a])
        invariant
            lo <= a <= hi <= cs@.len(),
            s == cs@.subrange(lo as int, hi as int),
            skip_ws(s, 0) == skip_ws(s, a - lo),
        decreases hi - a,
    {
        a = a + 1;
    }
    proof {
        lemma_scans_in_range(s, 0, ' ');
    }
    let mut e = hi;
    while e > a && crate::text::is_white_space(cs[e - 1])
        invariant
            lo <= a <= e <= hi <= cs@.len(),
            s == cs@.subrange(lo as int, hi as int),
            skip_ws(s, 0) == a - lo,
            trim_end(s, a - lo, s.len() as int) == trim_end(s, a - lo, e - lo),
        decreases e,
    {
        e = e - 1;
    }
    proof {
        lemma_trim_end_in_range(s, a - lo, s.len() as int);
        assert(cs@.subrange(a as int, e as int) =~= s.subrange(a - lo, e - lo));
    }
    (a, e)
}

/// Parses one line of the pinned list.
pub fn parse_pin_line(line: &str) -> (r: Option<(String, String)>)
    ensures
        match pin_line(line@) {
            None => r is None,
            Some(p) => r matches Some(q) && pair_view(q) == p,
        },
{
    let cs = chars_of(line);
    let n = cs.len();
    if n > 0 && cs[0] == '#' {
        return None;
    }
    let lo = skip_ws_from(&cs, 0);
    if lo >= n {
        return None;
    }
    match fields_of(&cs) {
        None => None,
        Some((a, b)) => {
            let d = String::from_str(line.substring_char(0, a));
            let f = pinned_stem(line.substring_char(a + 1, b));
            Some((d, f))
        },
    }
}

/// Parses one line of the effective split.
pub fn parse_holdout_line(line: &str) -> (r: Option<(String, String)>)
    ensures
        match holdout_line(line@) {
            None => r is None,
            Some(p) => r matches Some(q) && pair_view(q) == p,
        },
        r is Some ==> (two_fields(trim(line@)) matches Some((_, bucket)) && bucket != TRAIN@),
{
    let all = chars_of(line);
    let (lo, hi) = trim_bounds(&all, 0, all.len());
    assert(all@.subrange(0, all@.len() as int) =~= all@);
    let t = line.substring_char(lo, hi);
    let cs = chars_of(t);
    let n = cs.len();
    if n == 0 || cs[0] == '#' {
        return None;
    }
    let (a, b) = match fields_of(&cs) {
        None => return None,
        Some(ab) => ab,
    };
    // bucket == "train"?
    if b - (a + 1) == 5 && cs[a + 1] == 't' && cs[a + 2] == 'r' && cs[a + 3] == 'a' && cs[a + 4]
        == 'i' && cs[a + 5] == 'n' {
        assert(cs@.subrange(a + 1, b as int) =~= TRAIN@);
        return None;
    }
    proof {
        let bucket = cs@.subrange(a + 1, b as int);
        if bucket == TRAIN@ {
            assert(bucket.len() == 5);
            assert(bucket[0] == 't' && bucket[1] == 'r' && bucket[2] == 'a' && bucket[3] == 'i'
                && bucket[4] == 'n');
        }
    }
    // class = path up to the first '/'
    let ghost path = cs@.subrange(0, a as int);
    let mut sl: usize = 0;
    while sl < a && cs[sl] != '/'
        invariant
            a <= cs@.len(),
            sl <= a,
            path == cs@.subrange(0, a as int),
            forall|j: int| 0 <= j < sl ==> path[j] != '/',
        decreases a - sl,
    {
        sl = sl + 1;
    }
    proof {
        lemma_scan_to_at(path, 0, sl as int, '/');
    }
    if sl >= a {
        return None;
    }
    // stem = after the last '/' of the rest of the path
    let ghost file = path.subrange(sl + 1, a as int);
    assert(file.subrange(0, a - sl - 1) =~= file);
    let mut ls = a;
    while ls > sl + 1 && cs[ls - 1] != '/'
        invariant
            a <= cs@.len(),
            sl + 1 <= ls <= a,
            file == cs@.subrange(sl + 1, a as int),
            last_index_of(file, '/') == last_index_of(file.subrange(0, ls - sl - 1), '/'),
        decreases ls,
    {
        assert(file.subrange(0, ls - sl - 1).drop_last() =~= file.subrange(0, ls - sl - 2));
        ls = ls - 1;
    }
    proof {
        assert(file.subrange(0, file.len() as int) =~= file);
        if ls == sl + 1 {
            assert(file.subrange(0, 0) =~= Seq::<char>::empty());
        }
    }
    let class = String::from_str(t.substring_char(0, sl));
    let stem = pinned_stem(t.substring_char(ls, a));
    proof {
        let li = last_index_of(file, '/');
        let stem_s = if li >= 0 { file.subrange(li + 1, file.len() as int) } else { file };
        assert(stem_s =~= cs@.subrange(ls as int, a as int));
    }
    Some((class, stem))
}

/// Parses one line of a subcorpus list.
pub fn parse_subcorpus_line(line: &str) -> (r: Option<(String, String)>)
    ensures
        match subcorpus_line(line@) {
            None => r is None,
            Some(p) => r matches Some(q) && pair_view(q) == p,
        },
{
    let cs = chars_of(line);
    let n = cs.len();
    if n > 0 && cs[0] == '#' {
        return None;
    }
    let lo = skip_ws_from(&cs, 0);
    if lo >= n {
        return None;
    }
    match fields_of(&cs) {
        None => None,
        Some((a, b)) => {
            let (x0, x1) = trim_bounds(&cs, 0, a);
            let (y0, y1) = trim_bounds(&cs, a + 1, b);
            let label = String::from_str(line.substring_char(x0, x1));
            let dir = String::from_str(line.substring_char(y0, y1));
            Some((label, dir))
        },
    }
}

/// `(dir, pinned stem)` for every entry of a pinned list, in file order.
pub fn parse_pinned(text: &str) -> (r: Vec<(String, String)>)
    ensures
        r@.map_values(|p: (String, String)| pair_view(p)) == collect_lines(
            lines_of(text@),
            |l: Seq<char>| pin_line(l),
        ),
{
    let lines = split_lines(text);
    let ghost ls = lines@.map_values(|l: &str| l@);
    let mut out: Vec<(String, String)> = Vec::new();
    let mut i: usize = 0;
    while i < lines.len()
        invariant
            ls == lines@.map_values(|l: &str| l@),
            ls == lines_of(text@),
            i <= lines@.len(),
            out@.map_values(|p: (String, String)| pair_view(p)) == collect_lines(
                ls.subrange(0, i as int),
                |l: Seq<char>| pin_line(l),
            ),
        decreases lines.len() - i,
    {
        let ghost before = out@.map_values(|p: (String, String)| pair_view(p));
        assert(ls.subrange(0, i as int + 1).drop_last() =~= ls.subrange(0, i as int));
        assert(ls.subrange(0, i as int + 1).last() == lines@[i as int]@);
        match parse_pin_line(lines[i]) {
            Some(p) => {
                out.push(p);
                assert(out@.map_values(|p: (String, String)| pair_view(p)) =~= before.push(
                    pair_view(p),
                ));
            },
            None => {},
        }
        assert(out@.map_values(|p: (String, String)| pair_view(p)) =~= collect_lines(
            ls.subrange(0, i as int + 1),
            |l: Seq<char>| pin_line(l),
        ));
        i = i + 1;
    }
    assert(ls.subrange(0, lines@.len() as int) =~= ls);
    out
}

/// `(class, pinned stem)` for every held-out (not `train`) entry of the
/// effective split, in file order.
pub fn parse_holdout(text: &str) -> (r: Vec<(String, String)>)
    ensures
        r@.map_values(|p: (String, String)| pair_view(p)) == collect_lines(
            lines_of(text@),
            |l: Seq<char>| holdout_line(l),
        ),
{
    let lines = split_lines(text);
    let ghost ls = lines@.map_values(|l: &str| l@);
    let mut out: Vec<(String, String)> = Vec::new();
    let mut i: usize = 0;
    while i < lines.len()
        invariant
            ls == lines@.map_values(|l: &str| l@),
            ls == lines_of(text@),
            i <= lines@.len(),
            out@.map_values(|p: (String, String)| pair_view(p)) == collect_lines(
                ls.subrange(0, i as int),
                |l: Seq<char>| holdout_line(l),
            ),
        decreases lines.len() - i,
    {
        let ghost before = out@.map_values(|p: (String, String)| pair_view(p));
        assert(ls.subrange(0, i as int + 1).drop_last() =~= ls.subrange(0, i as int));
        assert(ls.subrange(0, i as int + 1).last() == lines@[i as int]@);
        match parse_holdout_line(lines[i]) {
            Some(p) => {
                out.push(p);
                assert(out@.map_values(|p: (String, String)| pair_view(p)) =~= before.push(
                    pair_view(p),
                ));
            },
            None => {},
        }
        assert(out@.map_values(|p: (String, String)| pair_view(p)) =~= collect_lines(
            ls.subrange(0, i as int + 1),
            |l: Seq<char>| holdout_line(l),
        ));
        i = i + 1;
    }
    assert(ls.subrange(0, lines@.len() as int) =~= ls);
    out
}

/// `(label, directory)` for every entry of a subcorpus list, in file order.
pub fn parse_subcorpora(text: &str) -> (r: Vec<(String, String)>)
    ensures
        r@.map_values(|p: (String, String)| pair_view(p)) == collect_lines(
            lines_of(text@),
            |l: Seq<char>| subcorpus_line(l),
        ),
{
    let lines = split_lines(text);
    let ghost ls = lines@.map_values(|l: &str| l@);
    let mut out: Vec<(String, String)> = Vec::new();
    let mut i: usize = 0;
    while i < lines.len()
        invariant
            ls == lines@.map_values(|l: &str| l@),
            ls == lines_of(text@),
            i <= lines@.len(),
            out@.map_values(|p: (String, String)| pair_view(p)) == collect_lines(
                ls.subrange(0, i as int),
                |l: Seq<char>| subcorpus_line(l),
            ),
        decreases lines.len() - i,
    {
        let ghost before = out@.map_values(|p: (String, String)| pair_view(p));
        assert(ls.subrange(0, i as int + 1).drop_last() =~= ls.subrange(0, i as int));
        assert(ls.subrange(0, i as int + 1).last() == lines@[i as int]@);
        match parse_subcorpus_line(lines[i]) {
            Some(p) => {
                out.push(p);
                assert(out@.map_values(|p: (String, String)| pair_view(p)) =~= before.push(
                    pair_view(p),
                ));
            },
            None => {},
        }
        assert(out@.map_values(|p: (String, String)| pair_view(p)) =~= collect_lines(
            ls.subrange(0, i as int + 1),
            |l: Seq<char>| subcorpus_line(l),
        ));
        i = i + 1;
    }
    assert(ls.subrange(0, lines@.len() as int) =~= ls);
    out
}

/// Nothing from a `train` line ever reaches the held-out set: every line
/// whose bucket field is `train` contributes no entry.
pub proof fn lemma_train_lines_excluded(l: Seq<char>)
    requires
        two_fields(trim(l)) matches Some((_, bucket)) && bucket == TRAIN@,
    ensures
        holdout_line(l) is None,
{
}

} // verus!
