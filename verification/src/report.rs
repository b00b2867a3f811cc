//! Extraction of unresolved library names from a dependency report.
//!
//! The report is line-oriented text, given here as bytes. A line describes an
//! unresolved dependency when it contains the marker `not found`; on such a
//! line the library name is everything before the first `=>` separator,
//! trimmed of ASCII whitespace. A marker line whose name trims to nothing is
//! a fatal scan error: it signals a report format the scanner does not
//! understand, and must not be skipped silently.

use vstd::prelude::*;

verus! {

/// The byte that ends a report line.
pub const LINE_FEED: u8 = 10;

/// ASCII whitespace, the characters trimmed from around a library name.
pub open spec fn is_ascii_space(b: u8) -> bool {
    b == 32 || (9 <= b && b <= 13)
}

/// `s` without its leading ASCII whitespace.
pub open spec fn trim_start(s: Seq<u8>) -> Seq<u8>
    decreases s.len(),
{
    if s.len() > 0 && is_ascii_space(s[0]) {
        trim_start(s.drop_first())
    } else {
        s
    }
}

/// `s` without its trailing ASCII whitespace.
pub open spec fn trim_end(s: Seq<u8>) -> Seq<u8>
    decreases s.len(),
{
    if s.len() > 0 && is_ascii_space(s.last()) {
        trim_end(s.drop_last())
    } else {
        s
    }
}

/// `s` without leading and trailing ASCII whitespace.
pub open spec fn trim(s: Seq<u8>) -> Seq<u8> {
    trim_start(trim_end(s))
}

/// Executable twin of `is_ascii_space`.
pub fn is_space_byte(b: u8) -> (r: bool)
    ensures
        r == is_ascii_space(b),
{
    b == 32 || (9 <= b && b <= 13)
}

/// A sequence whose first byte is not whitespace is left alone by `trim_start`.
proof fn lemma_trim_start_no_space(s: Seq<u8>)
    requires
        s.len() == 0 || !is_ascii_space(s[0]),
    ensures
        trim_start(s) == s,
{
}

/// A sequence whose last byte is not whitespace is left alone by `trim_end`.
proof fn lemma_trim_end_of_clean(s: Seq<u8>)
    requires
        s.len() == 0 || !is_ascii_space(s.last()),
    ensures
        trim_end(s) == s,
{
}

/// Copies `s[..end]` without its leading and trailing ASCII whitespace.
pub fn trim_bytes(s: &[u8], end: usize) -> (r: Vec<u8>)
    requires
        end <= s@.len(),
    ensures
        r@ == trim(s@.subrange(0, end as int)),
{
    let n: usize = end;
    let mut hi: usize = n;
    while hi > 0 && is_space_byte(s[hi - 1])
        invariant
            hi <= n,
            n <= s@.len(),
            trim_end(s@.subrange(0, hi as int)) == trim_end(s@.subrange(0, n as int)),
        decreases hi,
    {
        proof {
            assert(s@.subrange(0, hi as int).drop_last() =~= s@.subrange(0, hi as int - 1));
        }
        hi = hi - 1;
    }
    proof {
        lemma_trim_end_of_clean(s@.subrange(0, hi as int));
    }
    let mut lo: usize = 0;
    while lo < hi && is_space_byte(s[lo])
        invariant
            lo <= hi <= n,
            n <= s@.len(),
            trim_start(s@.subrange(lo as int, hi as int)) == trim(s@.subrange(0, n as int)),
        decreases hi - lo,
    {
        proof {
            assert(s@.subrange(lo as int, hi as int).drop_first() =~= s@.subrange(
                lo as int + 1,
                hi as int,
            ));
        }
        lo = lo + 1;
    }
    proof {
        lemma_trim_start_no_space(s@.subrange(lo as int, hi as int));
    }
    let mut r: Vec<u8> = Vec::new();
    let mut i: usize = lo;
    while i < hi
        invariant
            lo <= i <= hi <= n,
            n <= s@.len(),
            r@ == s@.subrange(lo as int, i as int),
        decreases hi - i,
    {
        r.push(s[i]);
        proof {
            assert(s@.subrange(lo as int, i as int + 1) =~= s@.subrange(lo as int, i as int).push(
                s@[i as int],
            ));
        }
        i = i + 1;
    }
    r
}

/// The marker that flags a report line as an unresolved dependency: `not found`.
pub open spec fn marker() -> Seq<u8> {
    seq![
        'n' as u8,
        'o' as u8,
        't' as u8,
        ' ' as u8,
        'f' as u8,
        'o' as u8,
        'u' as u8,
        'n' as u8,
        'd' as u8,
    ]
}

/// The separator between a library name and its resolution: `=>`.
pub open spec fn separator() -> Seq<u8> {
    seq!['=' as u8, '>' as u8]
}

/// The marker, as runtime bytes.
pub fn marker_bytes() -> (m: Vec<u8>)
    ensures
        m@ == marker(),
{
    let mut m: Vec<u8> = Vec::new();
    m.push('n' as u8);
    m.push('o' as u8);
    m.push('t' as u8);
    m.push(' ' as u8);
    m.push('f' as u8);
    m.push('o' as u8);
    m.push('u' as u8);
    m.push('n' as u8);
    m.push('d' as u8);
    proof {
        assert(m@ =~= marker());
    }
    m
}

/// The separator, as runtime bytes.
pub fn separator_bytes() -> (m: Vec<u8>)
    ensures
        m@ == separator(),
{
    let mut m: Vec<u8> = Vec::new();
    m.push('=' as u8);
    m.push('>' as u8);
    proof {
        assert(m@ =~= separator());
    }
    m
}

/// `needle` occurs in `hay` starting at index `i`.
pub open spec fn matches_at(hay: Seq<u8>, needle: Seq<u8>, i: int) -> bool {
    0 <= i && i + needle.len() <= hay.len() && hay.subrange(i, i + needle.len() as int) == needle
}

/// Index of the first occurrence of `needle` in `hay`, if any.
pub open spec fn first_occurrence(hay: Seq<u8>, needle: Seq<u8>) -> Option<int>
    decreases hay.len(),
{
    if matches_at(hay, needle, 0) {
        Some(0int)
    } else if hay.len() == 0 {
        None
    } else {
        match first_occurrence(hay.drop_first(), needle) {
            Some(i) => Some(i + 1),
            None => None,
        }
    }
}

/// Dropping the first byte of `hay` shifts every occurrence down by one.
proof fn lemma_matches_shift(hay: Seq<u8>, needle: Seq<u8>, i: int)
    requires
        hay.len() > 0,
        0 <= i,
    ensures
        matches_at(hay.drop_first(), needle, i) == matches_at(hay, needle, i + 1),
{
    if i + 1 + needle.len() <= hay.len() {
        assert(hay.drop_first().subrange(i, i + needle.len() as int) =~= hay.subrange(
            i + 1,
            i + 1 + needle.len() as int,
        ));
    }
}

/// `first_occurrence` returns the least index at which `needle` occurs,
/// and `None` exactly when it occurs nowhere.
proof fn lemma_first_occurrence(hay: Seq<u8>, needle: Seq<u8>)
    ensures
        match first_occurrence(hay, needle) {
            Some(i) => matches_at(hay, needle, i) && forall|j: int|
                0 <= j < i ==> !matches_at(hay, needle, j),
            None => forall|j: int| !matches_at(hay, needle, j),
        },
    decreases hay.len(),
{
    if matches_at(hay, needle, 0) {
    } else if hay.len() == 0 {
    } else {
        lemma_first_occurrence(hay.drop_first(), needle);
        assert forall|j: int| 0 <= j implies matches_at(hay.drop_first(), needle, j)
            == matches_at(hay, needle, j + 1) by {
            lemma_matches_shift(hay, needle, j);
        }
        match first_occurrence(hay.drop_first(), needle) {
            Some(i) => {
                assert(matches_at(hay.drop_first(), needle, i));
                assert forall|j: int| 0 <= j < i + 1 implies !matches_at(hay, needle, j) by {
                    if j > 0 {
                        assert(!matches_at(hay.drop_first(), needle, j - 1));
                    }
                }
            },
            None => {
                assert forall|j: int| !matches_at(hay, needle, j) by {
                    if j > 0 {
                        assert(!matches_at(hay.drop_first(), needle, j - 1));
                    }
                }
            },
        }
    }
}

/// Compares `hay[i..i + needle.len()]` with `needle`.
fn matches_here(hay: &[u8], needle: &[u8], i: usize) -> (r: bool)
    requires
        i + needle@.len() <= hay@.len(),
    ensures
        r == matches_at(hay@, needle@, i as int),
{
    let n: usize = hay.len();
    let m: usize = needle.len();
    let mut k: usize = 0;
    while k < m
        invariant
            k <= m,
            n == hay@.len(),
            m == needle@.len(),
            i + m <= n,
            forall|t: int| 0 <= t < k ==> hay@[i + t] == needle@[t],
        decreases m - k,
    {
        if hay[i + k] != needle[k] {
            proof {
                assert(hay@.subrange(i as int, i + m) != needle@) by {
                    assert(hay@.subrange(i as int, i + m)[k as int] == hay@[i + k]);
                }
            }
            return false;
        }
        k = k + 1;
    }
    proof {
        assert(hay@.subrange(i as int, i + m) =~= needle@);
    }
    true
}

/// Finds the first occurrence of `needle` in `hay`, scanning left to right.
pub fn find_sub(hay: &[u8], needle: &[u8]) -> (r: Option<usize>)
    ensures
        match r {
            Some(i) => first_occurrence(hay@, needle@) == Some(i as int),
            None => first_occurrence(hay@, needle@) is None,
        },
{
    proof {
        lemma_first_occurrence(hay@, needle@);
    }
    let n: usize = hay.len();
    let m: usize = needle.len();
    if m > n {
        return None;
    }
    if m == 0 {
        proof {
            assert(hay@.subrange(0, 0) =~= needle@);
        }
        return Some(0);
    }
    let mut i: usize = 0;
    while i <= n - m
        invariant
            0 < m <= n,
            n == hay@.len(),
            m == needle@.len(),
            i <= n - m + 1,
            forall|j: int| 0 <= j < i ==> !matches_at(hay@, needle@, j),
        decreases n - i,
    {
        if matches_here(hay, needle, i) {
            proof {
                lemma_first_occurrence(hay@, needle@);
            }
            return Some(i);
        }
        i = i + 1;
    }
    proof {
        lemma_first_occurrence(hay@, needle@);
    }
    None
}

/// The line reports an unresolved dependency: it contains the marker.
pub open spec fn has_marker(line: Seq<u8>) -> bool {
    exists|i: int| matches_at(line, marker(), i)
}

/// The library name on a report line: everything before the first separator
/// (the whole line if there is none), trimmed of ASCII whitespace.
pub open spec fn line_name(line: Seq<u8>) -> Seq<u8> {
    match first_occurrence(line, separator()) {
        Some(i) => trim(line.subrange(0, i)),
        None => trim(line),
    }
}

/// Decides whether `line` contains the `not found` marker.
pub fn line_has_marker(line: &[u8]) -> (r: bool)
    ensures
        r == has_marker(line@),
{
    let m = marker_bytes();
    let found = find_sub(line, m.as_slice());
    proof {
        lemma_first_occurrence(line@, marker());
    }
    found.is_some()
}

/// Extracts the library name from a report line.
pub fn extract_name(line: &[u8]) -> (r: Vec<u8>)
    ensures
        r@ == line_name(line@),
{
    let sep = separator_bytes();
    let cut: usize = match find_sub(line, sep.as_slice()) {
        Some(i) => i,
        None => line.len(),
    };
    proof {
        lemma_first_occurrence(line@, separator());
        assert(line@.subrange(0, line@.len() as int) =~= line@);
    }
    trim_bytes(line, cut)
}

/// The first line of `s`: every byte before the first line feed.
pub open spec fn line_head(s: Seq<u8>) -> Seq<u8>
    decreases s.len(),
{
    if s.len() == 0 || s[0] == LINE_FEED {
        Seq::empty()
    } else {
        seq![s[0]] + line_head(s.drop_first())
    }
}

/// What remains of `s` after its first line and the line feed that ends it.
pub open spec fn line_tail(s: Seq<u8>) -> Seq<u8>
    decreases s.len(),
{
    if s.len() == 0 {
        Seq::empty()
    } else if s[0] == LINE_FEED {
        s.drop_first()
    } else {
        line_tail(s.drop_first())
    }
}

/// Passing to the next line consumes at least one byte.
proof fn lemma_line_tail_shrinks(s: Seq<u8>)
    requires
        s.len() > 0,
    ensures
        line_tail(s).len() < s.len(),
    decreases s.len(),
{
    if s[0] != LINE_FEED {
        if s.len() > 1 {
            lemma_line_tail_shrinks(s.drop_first());
        } else {
            assert(s.drop_first().len() == 0);
            assert(line_tail(s.drop_first()) == Seq::<u8>::empty());
        }
    }
}

/// `s` as a sequence of lines, split at line feeds. Text after the last line
/// feed forms a final line; a trailing line feed adds no empty line.
pub open spec fn line_split(s: Seq<u8>) -> Seq<Seq<u8>>
    decreases s.len(),
    via line_split_decreases
{
    if s.len() == 0 {
        Seq::empty()
    } else {
        seq![line_head(s)] + line_split(line_tail(s))
    }
}

#[via_fn]
proof fn line_split_decreases(s: Seq<u8>) {
    if s.len() > 0 {
        lemma_line_tail_shrinks(s);
    }
}

/// If the first `j` bytes of `s` are free of line feeds and a line feed (or
/// the end of `s`) stands at `j`, then the first line of `s` is exactly
/// `s[..j]` and the rest starts right after the line feed.
proof fn lemma_line_boundary(s: Seq<u8>, j: int)
    requires
        0 <= j <= s.len(),
        forall|k: int| 0 <= k < j ==> s[k] != LINE_FEED,
        j == s.len() || s[j] == LINE_FEED,
    ensures
        line_head(s) == s.subrange(0, j),
        line_tail(s) == if j < s.len() {
            s.subrange(j + 1, s.len() as int)
        } else {
            Seq::<u8>::empty()
        },
    decreases s.len(),
{
    if s.len() == 0 {
        assert(s.subrange(0, 0) =~= Seq::<u8>::empty());
    } else if j == 0 {
        assert(s.subrange(0, 0) =~= Seq::<u8>::empty());
        if 0 < s.len() {
            assert(s.drop_first() =~= s.subrange(1, s.len() as int));
        }
    } else {
        let t = s.drop_first();
        assert(forall|k: int| 0 <= k < j - 1 ==> t[k] == s[k + 1]);
        lemma_line_boundary(t, j - 1);
        assert(seq![s[0]] + t.subrange(0, j - 1) =~= s.subrange(0, j));
        if j < s.len() {
            assert(t.subrange(j, t.len() as int) =~= s.subrange(j + 1, s.len() as int));
        }
    }
}

/// Splits a report into its lines.
pub fn split_report_lines(report: &[u8]) -> (lines: Vec<Vec<u8>>)
    ensures
        lines@.map_values(|l: Vec<u8>| l@) == line_split(report@),
{
    let n: usize = report.len();
    let mut lines: Vec<Vec<u8>> = Vec::new();
    let mut pos: usize = 0;
    proof {
        assert(report@.subrange(0, n as int) =~= report@);
        assert(lines@.map_values(|l: Vec<u8>| l@) =~= Seq::<Seq<u8>>::empty());
    }
    while pos < n
        invariant
            pos <= n,
            n == report@.len(),
            lines@.map_values(|l: Vec<u8>| l@) + line_split(
                report@.subrange(pos as int, n as int),
            ) == line_split(report@),
        decreases n - pos,
    {
        let mut j: usize = pos;
        while j < n && report[j] != LINE_FEED
            invariant
                pos <= j <= n,
                n == report@.len(),
                forall|k: int| pos <= k < j ==> report@[k] != LINE_FEED,
            decreases n - j,
        {
            j = j + 1;
        }
        let mut line: Vec<u8> = Vec::new();
        let mut k: usize = pos;
        while k < j
            invariant
                pos <= k <= j <= n,
                n == report@.len(),
                line@ == report@.subrange(pos as int, k as int),
            decreases j - k,
        {
            line.push(report[k]);
            proof {
                assert(report@.subrange(pos as int, k as int + 1) =~= report@.subrange(
                    pos as int,
                    k as int,
                ).push(report@[k as int]));
            }
            k = k + 1;
        }
        proof {
            let rest = report@.subrange(pos as int, n as int);
            lemma_line_boundary(rest, j - pos);
            assert(rest.subrange(0, j - pos) =~= report@.subrange(pos as int, j as int));
            assert(line_head(rest) == line@);
            if j < n {
                assert(rest.subrange(j - pos + 1, rest.len() as int) =~= report@.subrange(
                    j + 1,
                    n as int,
                ));
            } else {
                assert(report@.subrange(n as int, n as int) =~= Seq::<u8>::empty());
            }
            let f = |l: Vec<u8>| l@;
            assert(lines@.push(line).map_values(f) =~= lines@.map_values(f).push(line@));
            assert(lines@.map_values(f).push(line@) + line_split(line_tail(rest))
                =~= lines@.map_values(f) + (seq![line@] + line_split(line_tail(rest))));
        }
        lines.push(line);
        pos = if j < n {
            j + 1
        } else {
            n
        };
    }
    proof {
        assert(report@.subrange(n as int, n as int) =~= Seq::<u8>::empty());
        assert(lines@.map_values(|l: Vec<u8>| l@) + Seq::<Seq<u8>>::empty() =~= lines@.map_values(
            |l: Vec<u8>| l@,
        ));
    }
    lines
}

/// A report line that qualifies as unresolved but carries no name: the
/// scanner must fail on it rather than skip it.
pub open spec fn is_malformed_line(l: Seq<u8>) -> bool {
    has_marker(l) && line_name(l).len() == 0
}

/// The names of the marker lines of `lines`, in order, one per marker line.
pub open spec fn names_in_lines(lines: Seq<Seq<u8>>) -> Seq<Seq<u8>>
    decreases lines.len(),
{
    if lines.len() == 0 {
        Seq::empty()
    } else if has_marker(lines.last()) {
        names_in_lines(lines.drop_last()).push(line_name(lines.last()))
    } else {
        names_in_lines(lines.drop_last())
    }
}

/// The unresolved library names of a whole report.
pub open spec fn unresolved_names(report: Seq<u8>) -> Seq<Seq<u8>> {
    names_in_lines(line_split(report))
}

/// The report defeats the scanner: some marker line has an empty name.
pub open spec fn scan_fails(report: Seq<u8>) -> bool {
    exists|i: int| 0 <= i < line_split(report).len() && is_malformed_line(line_split(report)[i])
}

/// The marker lines of `lines`, in order.
pub open spec fn marker_lines(lines: Seq<Seq<u8>>) -> Seq<Seq<u8>> {
    lines.filter(|l: Seq<u8>| has_marker(l))
}

/// The names on a sequence of lines, one per line.
pub open spec fn names_of_lines(lines: Seq<Seq<u8>>) -> Seq<Seq<u8>> {
    marker_lines(lines).map_values(|l: Seq<u8>| line_name(l))
}

/// The scanner is exact: for a report whose marker lines number N, it yields
/// exactly those N lines' names — order preserved, duplicates preserved,
/// no other line contributing anything.
pub proof fn lemma_scanner_exact(report: Seq<u8>)
    ensures
        unresolved_names(report) == names_of_lines(line_split(report)),
{
    lemma_names_in_lines_exact(line_split(report));
}

/// `names_in_lines` agrees with filtering the marker lines and mapping each
/// to its name.
proof fn lemma_names_in_lines_exact(lines: Seq<Seq<u8>>)
    ensures
        names_in_lines(lines) == names_of_lines(lines),
    decreases lines.len(),
{
    reveal(Seq::filter);
    if lines.len() == 0 {
        assert(names_of_lines(lines) =~= Seq::<Seq<u8>>::empty());
    } else {
        let rest = lines.drop_last();
        lemma_names_in_lines_exact(rest);
        assert(marker_lines(lines) == if has_marker(lines.last()) {
            marker_lines(rest).push(lines.last())
        } else {
            marker_lines(rest)
        });
        if has_marker(lines.last()) {
            assert(names_of_lines(lines) =~= names_of_lines(rest).push(line_name(lines.last())));
        } else {
            assert(names_of_lines(lines) =~= names_of_lines(rest));
        }
    }
}

/// The one way the scanner fails.
#[derive(Clone, Copy, Debug, PartialEq, Eq, Structural)]
pub enum ScanError {
    /// A line carried the marker but no library name before the separator.
    EmptyLibraryName,
}

/// Scans a dependency report and returns the unresolved library names, in
/// report order, duplicates kept. Fails — and yields no names at all — when
/// a marker line carries an empty name.
pub fn missing_libs(report: &[u8]) -> (r: Result<Vec<Vec<u8>>, ScanError>)
    ensures
        r is Ok <==> !scan_fails(report@),
        match r {
            Ok(names) => names@.map_values(|n: Vec<u8>| n@) == unresolved_names(report@),
            Err(e) => e == ScanError::EmptyLibraryName,
        },
{
    let lines = split_report_lines(report);
    let ghost all_lines: Seq<Seq<u8>> = line_split(report@);
    let mut names: Vec<Vec<u8>> = Vec::new();
    let mut idx: usize = 0;
    proof {
        assert(all_lines.subrange(0, 0) =~= Seq::<Seq<u8>>::empty());
        assert(names@.map_values(|n: Vec<u8>| n@) =~= Seq::<Seq<u8>>::empty());
    }
    while idx < lines.len()
        invariant
            idx <= lines@.len(),
            lines@.map_values(|l: Vec<u8>| l@) == all_lines,
            all_lines == line_split(report@),
            names@.map_values(|n: Vec<u8>| n@) == names_in_lines(all_lines.subrange(0, idx as int)),
            forall|i: int| 0 <= i < idx ==> !is_malformed_line(all_lines[i]),
        decreases lines@.len() - idx,
    {
        let ghost prefix = all_lines.subrange(0, idx as int);
        proof {
            assert(lines@.map_values(|l: Vec<u8>| l@)[idx as int] == lines@[idx as int]@);
            assert(all_lines.subrange(0, idx as int + 1) =~= prefix.push(all_lines[idx as int]));
            assert(prefix.push(all_lines[idx as int]).drop_last() =~= prefix);
        }
        let line = &lines[idx];
        if line_has_marker(line.as_slice()) {
            let name = extract_name(line.as_slice());
            if name.len() == 0 {
                proof {
                    assert(is_malformed_line(all_lines[idx as int]));
                }
                return Err(ScanError::EmptyLibraryName);
            }
            proof {
                assert(names@.map_values(|n: Vec<u8>| n@).push(name@) =~= names@.push(
                    name,
                ).map_values(|n: Vec<u8>| n@));
            }
            names.push(name);
        }
        idx = idx + 1;
    }
    proof {
        assert(all_lines.subrange(0, all_lines.len() as int) =~= all_lines);
    }
    Ok(names)
}

} // verus!
