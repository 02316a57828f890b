//! Reading `.cube` 3D LUT files.
//!
//! A file is read line by line; each line is taken as its whitespace-separated words,
//! so a line "starts with" a keyword exactly when its first word does. Number tokens
//! are checked against the grammar of `f32::from_str` and handed back as text; the
//! caller converts them.
use vstd::prelude::*;
use crate::cube_text::{
    check_float_literal, is_float_literal, lemma_line_words_join, lemma_line_words_single,
    line_words, parse_usize, split_line_words, usize_literal,
};

verus! {

/// The three number tokens of one data line of a `.cube` file.
pub type TokenTriple = (Seq<char>, Seq<char>, Seq<char>);

/// Whether word `w` begins with `p`.
pub open spec fn starts_with(w: Seq<char>, p: Seq<char>) -> bool {
    p.len() <= w.len() && w.subrange(0, p.len() as int) =~= p
}

/// `TITLE`
pub open spec fn kw_title() -> Seq<char> {
    seq!['T', 'I', 'T', 'L', 'E']
}

/// `LUT_3D_SIZE`
pub open spec fn kw_size() -> Seq<char> {
    seq!['L', 'U', 'T', '_', '3', 'D', '_', 'S', 'I', 'Z', 'E']
}

/// `DOMAIN_MIN`
pub open spec fn kw_domain_min() -> Seq<char> {
    seq!['D', 'O', 'M', 'A', 'I', 'N', '_', 'M', 'I', 'N']
}

/// `DOMAIN_MAX`
pub open spec fn kw_domain_max() -> Seq<char> {
    seq!['D', 'O', 'M', 'A', 'I', 'N', '_', 'M', 'A', 'X']
}

/// `#`
pub open spec fn kw_comment() -> Seq<char> {
    seq!['#']
}

/// The first three words of a line.
pub open spec fn first_three(ws: Seq<Seq<char>>) -> TokenTriple {
    (ws[0], ws[1], ws[2])
}

/// Whether all three tokens are number literals.
pub open spec fn triple_is_numeric(t: TokenTriple) -> bool {
    is_float_literal(t.0) && is_float_literal(t.1) && is_float_literal(t.2)
}

/// Progress of reading a full `.cube` LUT: the size and data lines read so far, or
/// the first malformed token met.
pub enum CubeScan {
    Reading { size: int, entries: Seq<TokenTriple> },
    BadSize,
    BadValue,
}

/// One line of a full `.cube` LUT file applied to the reading so far. Empty lines and
/// lines starting with `#` are skipped; a `LUT_3D_SIZE` line with a second word sets the
/// size; `TITLE`, `DOMAIN_MIN` and `DOMAIN_MAX` lines are skipped; any other line of at
/// least three words is a data line made of its first three words.
pub open spec fn lut3d_step(st: CubeScan, ws: Seq<Seq<char>>) -> CubeScan {
    match st {
        CubeScan::Reading { size, entries } => {
            if ws.len() == 0 || starts_with(ws[0], kw_comment()) {
                st
            } else if starts_with(ws[0], kw_size()) {
                if ws.len() >= 2 {
                    match usize_literal(ws[1]) {
                        Some(v) => CubeScan::Reading { size: v, entries },
                        None => CubeScan::BadSize,
                    }
                } else {
                    st
                }
            } else if starts_with(ws[0], kw_title()) || starts_with(ws[0], kw_domain_min())
                || starts_with(ws[0], kw_domain_max()) {
                st
            } else if ws.len() >= 3 {
                if triple_is_numeric(first_three(ws)) {
                    CubeScan::Reading { size, entries: entries.push(first_three(ws)) }
                } else {
                    CubeScan::BadValue
                }
            } else {
                st
            }
        },
        _ => st,
    }
}

/// Reading of the first `k` lines of a full `.cube` LUT file.
pub open spec fn lut3d_scan(lines: Seq<Seq<Seq<char>>>, k: int) -> CubeScan
    decreases k,
{
    if k <= 0 {
        CubeScan::Reading { size: 0, entries: Seq::empty() }
    } else {
        lut3d_step(lut3d_scan(lines, k - 1), lines[k - 1])
    }
}

/// Why a `.cube` file was rejected.
#[derive(Debug)]
pub enum CubeError {
    /// The word after `LUT_3D_SIZE` is not an unsigned integer.
    InvalidSize,
    /// A data line holds a token that is not a number.
    InvalidValue,
    /// No `LUT_3D_SIZE` line set a nonzero size.
    MissingSize,
    /// The number of data lines is not `size³`.
    WrongCount { size: usize, found: usize },
}

/// The data lines of a full `.cube` LUT, in file order (blue varies fastest).
pub struct CubeTable {
    /// Grid points per axis.
    pub size: usize,
    /// The number tokens of each data line.
    pub entries: Vec<(Vec<char>, Vec<char>, Vec<char>)>,
}

/// The tokens held by a vector of token triples.
pub open spec fn triples_view(v: Seq<(Vec<char>, Vec<char>, Vec<char>)>) -> Seq<TokenTriple> {
    v.map_values(|t: (Vec<char>, Vec<char>, Vec<char>)| (t.0@, t.1@, t.2@))
}

/// What reading a full `.cube` LUT file gives: the size and data lines, or the error.
pub open spec fn lut3d_result(text: Seq<char>) -> Result<(int, Seq<TokenTriple>), CubeError> {
    let lines = line_words(text);
    match lut3d_scan(lines, lines.len() as int) {
        CubeScan::BadSize => Err(CubeError::InvalidSize),
        CubeScan::BadValue => Err(CubeError::InvalidValue),
        CubeScan::Reading { size, entries } => {
            if size == 0 {
                Err(CubeError::MissingSize)
            } else if entries.len() != size * size * size {
                Err(CubeError::WrongCount { size: size as usize, found: entries.len() as usize })
            } else {
                Ok((size, entries))
            }
        },
    }
}

fn word_starts_with(w: &Vec<char>, p: &Vec<char>) -> (b: bool)
    ensures
        b == starts_with(w@, p@),
{
    if p.len() > w.len() {
        return false;
    }
    let mut i: usize = 0;
    while i < p.len()
        invariant
            p@.len() <= w@.len(),
            0 <= i <= p@.len(),
            forall|k: int| 0 <= k < i ==> w@[k] == p@[k],
        decreases p@.len() - i,
    {
        if w[i] != p[i] {
            assert(w@.subrange(0, p@.len() as int)[i as int] != p@[i as int]);
            return false;
        }
        i += 1;
    }
    assert(w@.subrange(0, p@.len() as int) =~= p@);
    true
}

fn keyword_title() -> (v: Vec<char>)
    ensures
        v@ == kw_title(),
{
    let v = vec!['T', 'I', 'T', 'L', 'E'];
    assert(v@ =~= kw_title());
    v
}

fn keyword_size() -> (v: Vec<char>)
    ensures
        v@ == kw_size(),
{
    let v = vec!['L', 'U', 'T', '_', '3', 'D', '_', 'S', 'I', 'Z', 'E'];
    assert(v@ =~= kw_size());
    v
}

fn keyword_domain_min() -> (v: Vec<char>)
    ensures
        v@ == kw_domain_min(),
{
    let v = vec!['D', 'O', 'M', 'A', 'I', 'N', '_', 'M', 'I', 'N'];
    assert(v@ =~= kw_domain_min());
    v
}

fn keyword_domain_max() -> (v: Vec<char>)
    ensures
        v@ == kw_domain_max(),
{
    let v = vec!['D', 'O', 'M', 'A', 'I', 'N', '_', 'M', 'A', 'X'];
    assert(v@ =~= kw_domain_max());
    v
}

fn keyword_comment() -> (v: Vec<char>)
    ensures
        v@ == kw_comment(),
{
    let v = vec!['#'];
    assert(v@ =~= kw_comment());
    v
}


fn clone_word(w: &Vec<char>) -> (c: Vec<char>)
    ensures
        c@ == w@,
{
    let c = w.clone();
    assert(c@ =~= w@);
    c
}

/// Reads the text of a full `.cube` LUT file: its `LUT_3D_SIZE` and its data lines.
pub fn parse_lut3d_cube(text: &Vec<char>) -> (res: Result<CubeTable, CubeError>)
    ensures
        match res {
            Ok(t) => lut3d_result(text@) == Ok::<(int, Seq<TokenTriple>), CubeError>(
                (t.size as int, triples_view(t.entries@)),
            ),
            Err(e) => lut3d_result(text@) == Err::<(int, Seq<TokenTriple>), CubeError>(e),
        },
{
    let lines = split_line_words(text);
    let ghost spec_lines = line_words(text@);
    let kw_c = keyword_comment();
    let kw_s = keyword_size();
    let kw_t = keyword_title();
    let kw_min = keyword_domain_min();
    let kw_max = keyword_domain_max();
    let mut size: usize = 0;
    let mut entries: Vec<(Vec<char>, Vec<char>, Vec<char>)> = Vec::new();
    let mut i: usize = 0;
    assert(triples_view(entries@) =~= Seq::<TokenTriple>::empty());
    while i < lines.len()
        invariant
            spec_lines == line_words(text@),
            lines@.len() == spec_lines.len(),
            forall|a: int| 0 <= a < lines@.len() ==> (#[trigger] lines@[a])@.len() == spec_lines[a].len(),
            forall|a: int, b: int|
                0 <= a < lines@.len() && 0 <= b < lines@[a]@.len() ==> (#[trigger] lines@[a]@[b])@
                    == spec_lines[a][b],
            kw_c@ == kw_comment(),
            kw_s@ == kw_size(),
            kw_t@ == kw_title(),
            kw_min@ == kw_domain_min(),
            kw_max@ == kw_domain_max(),
            0 <= i <= lines@.len(),
            lut3d_scan(spec_lines, i as int) == (CubeScan::Reading {
                size: size as int,
                entries: triples_view(entries@),
            }),
        decreases lines@.len() - i,
    {
        let ws = &lines[i];
        let ghost sws = spec_lines[i as int];
        proof {
            assert(ws@.len() == sws.len());
            if ws@.len() > 0 {
                assert(ws@[0]@ == sws[0]);
            }
            if ws@.len() > 1 {
                assert(ws@[1]@ == sws[1]);
            }
            if ws@.len() > 2 {
                assert(ws@[2]@ == sws[2]);
            }
        }
        if ws.len() == 0 || word_starts_with(&ws[0], &kw_c) {
        } else if word_starts_with(&ws[0], &kw_s) {
            if ws.len() >= 2 {
                match parse_usize(&ws[1]) {
                    Some(v) => {
                        size = v;
                    },
                    None => {
                        proof {
                            lemma_scan_stays_failed(spec_lines, i as int + 1, spec_lines.len() as int);
                        }
                        return Err(CubeError::InvalidSize);
                    },
                }
            }
        } else if word_starts_with(&ws[0], &kw_t) || word_starts_with(&ws[0], &kw_min)
            || word_starts_with(&ws[0], &kw_max) {
        } else if ws.len() >= 3 {
            if check_float_literal(&ws[0]) && check_float_literal(&ws[1]) && check_float_literal(
                &ws[2],
            ) {
                let ghost prev = entries@;
                let t = (clone_word(&ws[0]), clone_word(&ws[1]), clone_word(&ws[2]));
                entries.push(t);
                assert(triples_view(entries@) =~= triples_view(prev).push(first_three(sws)));
            } else {
                proof {
                    lemma_scan_stays_failed(spec_lines, i as int + 1, spec_lines.len() as int);
                }
                return Err(CubeError::InvalidValue);
            }
        }
        i += 1;
    }
    if size == 0 {
        return Err(CubeError::MissingSize);
    }
    let found = entries.len();
    let expected = size.checked_mul(size);
    let matches = match expected {
        Some(sq) => match sq.checked_mul(size) {
            Some(cube) => cube == found,
            None => false,
        },
        None => false,
    };
    proof {
        if !matches {
            if size * size <= usize::MAX {
                assert(size * size * size > usize::MAX || size * size * size != found);
            } else {
                assert(size * size * size >= size * size) by (nonlinear_arith)
                    requires size >= 1;
            }
        }
    }
    if !matches {
        return Err(CubeError::WrongCount { size, found });
    }
    Ok(CubeTable { size, entries })
}

proof fn lemma_scan_stays_failed(lines: Seq<Seq<Seq<char>>>, k: int, n: int)
    requires
        0 <= k <= n,
        !(lut3d_scan(lines, k) is Reading),
    ensures
        lut3d_scan(lines, n) == lut3d_scan(lines, k),
    decreases n - k,
{
    if k < n {
        lemma_scan_stays_failed(lines, k + 1, n);
    }
}


/// One line of a residual `.cube` file applied to the reading so far: empty lines and
/// lines starting with `TITLE`, `LUT_3D_SIZE`, `DOMAIN_MIN` or `DOMAIN_MAX` are
/// skipped; a line of exactly three words is a data line; any other line is skipped.
pub open spec fn residual_step(st: CubeScan, ws: Seq<Seq<char>>) -> CubeScan {
    match st {
        CubeScan::Reading { size, entries } => {
            if ws.len() == 0 || starts_with(ws[0], kw_title()) || starts_with(ws[0], kw_size())
                || starts_with(ws[0], kw_domain_min()) || starts_with(ws[0], kw_domain_max()) {
                st
            } else if ws.len() == 3 {
                if triple_is_numeric(first_three(ws)) {
                    CubeScan::Reading { size, entries: entries.push(first_three(ws)) }
                } else {
                    CubeScan::BadValue
                }
            } else {
                st
            }
        },
        _ => st,
    }
}

/// Reading of the first `k` lines of a residual `.cube` file.
pub open spec fn residual_scan(lines: Seq<Seq<Seq<char>>>, k: int) -> CubeScan
    decreases k,
{
    if k <= 0 {
        CubeScan::Reading { size: 0, entries: Seq::empty() }
    } else {
        residual_step(residual_scan(lines, k - 1), lines[k - 1])
    }
}

/// What reading a residual `.cube` file gives: its data lines in file order, or the error.
pub open spec fn residual_result(text: Seq<char>) -> Result<Seq<TokenTriple>, CubeError> {
    let lines = line_words(text);
    match residual_scan(lines, lines.len() as int) {
        CubeScan::Reading { entries, .. } => Ok(entries),
        _ => Err(CubeError::InvalidValue),
    }
}

proof fn lemma_residual_stays_failed(lines: Seq<Seq<Seq<char>>>, k: int, n: int)
    requires
        0 <= k <= n,
        !(residual_scan(lines, k) is Reading),
    ensures
        residual_scan(lines, n) == residual_scan(lines, k),
    decreases n - k,
{
    if k < n {
        lemma_residual_stays_failed(lines, k + 1, n);
    }
}

/// Reads the data lines of a residual `.cube` file (the layout that this project writes:
/// a header, then one line of three numbers per cell).
pub fn parse_residual_cube(text: &Vec<char>) -> (res: Result<
    Vec<(Vec<char>, Vec<char>, Vec<char>)>,
    CubeError,
>)
    ensures
        match res {
            Ok(v) => residual_result(text@) == Ok::<Seq<TokenTriple>, CubeError>(triples_view(v@)),
            Err(e) => residual_result(text@) == Err::<Seq<TokenTriple>, CubeError>(e),
        },
{
    let lines = split_line_words(text);
    let ghost spec_lines = line_words(text@);
    let kw_s = keyword_size();
    let kw_t = keyword_title();
    let kw_min = keyword_domain_min();
    let kw_max = keyword_domain_max();
    let mut entries: Vec<(Vec<char>, Vec<char>, Vec<char>)> = Vec::new();
    let mut i: usize = 0;
    assert(triples_view(entries@) =~= Seq::<TokenTriple>::empty());
    while i < lines.len()
        invariant
            spec_lines == line_words(text@),
            lines@.len() == spec_lines.len(),
            forall|a: int| 0 <= a < lines@.len() ==> (#[trigger] lines@[a])@.len() == spec_lines[a].len(),
            forall|a: int, b: int|
                0 <= a < lines@.len() && 0 <= b < lines@[a]@.len() ==> (#[trigger] lines@[a]@[b])@
                    == spec_lines[a][b],
            kw_s@ == kw_size(),
            kw_t@ == kw_title(),
            kw_min@ == kw_domain_min(),
            kw_max@ == kw_domain_max(),
            0 <= i <= lines@.len(),
            residual_scan(spec_lines, i as int) == (CubeScan::Reading {
                size: 0,
                entries: triples_view(entries@),
            }),
        decreases lines@.len() - i,
    {
        let ws = &lines[i];
        let ghost sws = spec_lines[i as int];
        proof {
            assert(ws@.len() == sws.len());
            if ws@.len() > 0 {
                assert(ws@[0]@ == sws[0]);
            }
            if ws@.len() > 1 {
                assert(ws@[1]@ == sws[1]);
            }
            if ws@.len() > 2 {
                assert(ws@[2]@ == sws[2]);
            }
        }
        if ws.len() == 0 || word_starts_with(&ws[0], &kw_t) || word_starts_with(&ws[0], &kw_s)
            || word_starts_with(&ws[0], &kw_min) || word_starts_with(&ws[0], &kw_max) {
        } else if ws.len() == 3 {
            if check_float_literal(&ws[0]) && check_float_literal(&ws[1]) && check_float_literal(
                &ws[2],
            ) {
                let ghost prev = entries@;
                let t = (clone_word(&ws[0]), clone_word(&ws[1]), clone_word(&ws[2]));
                entries.push(t);
                assert(triples_view(entries@) =~= triples_view(prev).push(first_three(sws)));
            } else {
                proof {
                    lemma_residual_stays_failed(spec_lines, i as int + 1, spec_lines.len() as int);
                }
                return Err(CubeError::InvalidValue);
            }
        }
        i += 1;
    }
    Ok(entries)
}

/// The first character of a word that begins with one of the keywords.
proof fn lemma_keyword_first_char(w: Seq<char>)
    ensures
        starts_with(w, kw_comment()) ==> w.len() > 0 && w[0] == '#',
        starts_with(w, kw_title()) ==> w.len() > 0 && w[0] == 'T',
        starts_with(w, kw_size()) ==> w.len() > 0 && w[0] == 'L',
        starts_with(w, kw_domain_min()) ==> w.len() > 0 && w[0] == 'D',
        starts_with(w, kw_domain_max()) ==> w.len() > 0 && w[0] == 'D',
{
    if starts_with(w, kw_comment()) {
        assert(w.subrange(0, 1)[0] == kw_comment()[0]);
    }
    if starts_with(w, kw_title()) {
        assert(w.subrange(0, 5)[0] == kw_title()[0]);
    }
    if starts_with(w, kw_size()) {
        assert(w.subrange(0, 11)[0] == kw_size()[0]);
    }
    if starts_with(w, kw_domain_min()) {
        assert(w.subrange(0, 10)[0] == kw_domain_min()[0]);
    }
    if starts_with(w, kw_domain_max()) {
        assert(w.subrange(0, 10)[0] == kw_domain_max()[0]);
    }
}

/// A line whose first word begins with `TITLE` is skipped: it leaves the reading of a full
/// LUT file and of a residual file as it was, whatever else the line holds.
pub proof fn lemma_title_line_skipped(st: CubeScan, ws: Seq<Seq<char>>)
    requires
        ws.len() > 0,
        starts_with(ws[0], kw_title()),
    ensures
        lut3d_step(st, ws) == st,
        residual_step(st, ws) == st,
{
    lemma_keyword_first_char(ws[0]);
}

/// In a full LUT file, an empty line and a line whose first word begins with `#`,
/// `TITLE`, `DOMAIN_MIN` or `DOMAIN_MAX` leave the reading as it was.
pub proof fn lemma_lut3d_skipped_line(st: CubeScan, ws: Seq<Seq<char>>)
    requires
        ws.len() == 0 || starts_with(ws[0], kw_comment()) || starts_with(ws[0], kw_title())
            || starts_with(ws[0], kw_domain_min()) || starts_with(ws[0], kw_domain_max()),
    ensures
        lut3d_step(st, ws) == st,
{
    if ws.len() > 0 {
        lemma_keyword_first_char(ws[0]);
    }
}

/// In a residual file, a line that does not have exactly three words, and a line whose
/// first word begins with `TITLE`, `LUT_3D_SIZE`, `DOMAIN_MIN` or `DOMAIN_MAX`, leave the
/// reading as it was.
pub proof fn lemma_residual_skipped_line(st: CubeScan, ws: Seq<Seq<char>>)
    requires
        ws.len() != 3 || starts_with(ws[0], kw_title()) || starts_with(ws[0], kw_size())
            || starts_with(ws[0], kw_domain_min()) || starts_with(ws[0], kw_domain_max()),
    ensures
        residual_step(st, ws) == st,
{
}

proof fn lemma_scans_agree_on_prefix(a: Seq<Seq<Seq<char>>>, b: Seq<Seq<Seq<char>>>, n: int)
    requires
        0 <= n <= a.len(),
        n <= b.len(),
        forall|m: int| 0 <= m < n ==> a[m] == b[m],
    ensures
        lut3d_scan(a, n) == lut3d_scan(b, n),
        residual_scan(a, n) == residual_scan(b, n),
    decreases n,
{
    if n > 0 {
        lemma_scans_agree_on_prefix(a, b, n - 1);
        assert(a[n - 1] == b[n - 1]);
    }
}

proof fn lemma_lut3d_after_skipped(lines: Seq<Seq<Seq<char>>>, k: int, ws: Seq<Seq<char>>, j: int)
    requires
        0 <= k <= j <= lines.len(),
        ws.len() == 0 || starts_with(ws[0], kw_comment()) || starts_with(ws[0], kw_title())
            || starts_with(ws[0], kw_domain_min()) || starts_with(ws[0], kw_domain_max()),
    ensures
        lut3d_scan(lines.insert(k, ws), j + 1) == lut3d_scan(lines, j),
    decreases j - k,
{
    let ins = lines.insert(k, ws);
    if j == k {
        assert forall|m: int| 0 <= m < k implies ins[m] == lines[m] by {}
        lemma_scans_agree_on_prefix(ins, lines, k);
        assert(ins[k] == ws);
        lemma_lut3d_skipped_line(lut3d_scan(lines, k), ws);
    } else {
        lemma_lut3d_after_skipped(lines, k, ws, j - 1);
        assert(ins[j] == lines[j - 1]);
    }
}

proof fn lemma_residual_after_skipped(
    lines: Seq<Seq<Seq<char>>>,
    k: int,
    ws: Seq<Seq<char>>,
    j: int,
)
    requires
        0 <= k <= j <= lines.len(),
        ws.len() != 3 || starts_with(ws[0], kw_title()) || starts_with(ws[0], kw_size())
            || starts_with(ws[0], kw_domain_min()) || starts_with(ws[0], kw_domain_max()),
    ensures
        residual_scan(lines.insert(k, ws), j + 1) == residual_scan(lines, j),
    decreases j - k,
{
    let ins = lines.insert(k, ws);
    if j == k {
        assert forall|m: int| 0 <= m < k implies ins[m] == lines[m] by {}
        lemma_scans_agree_on_prefix(ins, lines, k);
        assert(ins[k] == ws);
        lemma_residual_skipped_line(residual_scan(lines, k), ws);
    } else {
        lemma_residual_after_skipped(lines, k, ws, j - 1);
        assert(ins[j] == lines[j - 1]);
    }
}

/// Inserting, at any place among the lines of a full LUT file, an empty line or a line
/// whose first word begins with `#`, `TITLE`, `DOMAIN_MIN` or `DOMAIN_MAX` changes nothing
/// that is read from it.
pub proof fn lemma_lut3d_skipped_line_insert(
    lines: Seq<Seq<Seq<char>>>,
    k: int,
    ws: Seq<Seq<char>>,
)
    requires
        0 <= k <= lines.len(),
        ws.len() == 0 || starts_with(ws[0], kw_comment()) || starts_with(ws[0], kw_title())
            || starts_with(ws[0], kw_domain_min()) || starts_with(ws[0], kw_domain_max()),
    ensures
        lut3d_scan(lines.insert(k, ws), lines.len() + 1 as int) == lut3d_scan(lines, lines.len() as int),
{
    lemma_lut3d_after_skipped(lines, k, ws, lines.len() as int);
}

/// Inserting, at any place among the lines of a residual file, a line that does not have
/// exactly three words or whose first word begins with `TITLE`, `LUT_3D_SIZE`,
/// `DOMAIN_MIN` or `DOMAIN_MAX` changes nothing that is read from it.
pub proof fn lemma_residual_skipped_line_insert(
    lines: Seq<Seq<Seq<char>>>,
    k: int,
    ws: Seq<Seq<char>>,
)
    requires
        0 <= k <= lines.len(),
        ws.len() != 3 || starts_with(ws[0], kw_title()) || starts_with(ws[0], kw_size())
            || starts_with(ws[0], kw_domain_min()) || starts_with(ws[0], kw_domain_max()),
    ensures
        residual_scan(lines.insert(k, ws), lines.len() + 1 as int) == residual_scan(
            lines,
            lines.len() as int,
        ),
{
    lemma_residual_after_skipped(lines, k, ws, lines.len() as int);
}

/// Inserting a `TITLE` line at any place among the lines of a file changes nothing that
/// is read from it, neither for a full LUT file nor for a residual file.
pub proof fn lemma_title_line_insert(lines: Seq<Seq<Seq<char>>>, k: int, ws: Seq<Seq<char>>)
    requires
        0 <= k <= lines.len(),
        ws.len() > 0,
        starts_with(ws[0], kw_title()),
    ensures
        lut3d_scan(lines.insert(k, ws), lines.len() + 1 as int) == lut3d_scan(lines, lines.len() as int),
        residual_scan(lines.insert(k, ws), lines.len() + 1 as int) == residual_scan(
            lines,
            lines.len() as int,
        ),
{
    lemma_lut3d_skipped_line_insert(lines, k, ws);
    lemma_residual_skipped_line_insert(lines, k, ws);
}

/// On text: a line `l` whose first word begins with `TITLE`, put between two parts of a
/// file, at its start or at its end, leaves the result of reading it unchanged.
pub proof fn lemma_title_line_in_text(t1: Seq<char>, l: Seq<char>, t2: Seq<char>)
    requires
        forall|i: int| 0 <= i < l.len() ==> l[i] != '\n',
        line_words(l)[0].len() > 0,
        starts_with(line_words(l)[0][0], kw_title()),
    ensures
        lut3d_result(t1 + seq!['\n'] + l + seq!['\n'] + t2) == lut3d_result(
            t1 + seq!['\n'] + t2,
        ),
        lut3d_result(l + seq!['\n'] + t2) == lut3d_result(t2),
        lut3d_result(t1 + seq!['\n'] + l) == lut3d_result(t1),
        residual_result(t1 + seq!['\n'] + l + seq!['\n'] + t2) == residual_result(
            t1 + seq!['\n'] + t2,
        ),
        residual_result(l + seq!['\n'] + t2) == residual_result(t2),
        residual_result(t1 + seq!['\n'] + l) == residual_result(t1),
{
    lemma_line_words_single(l);
    let ws = line_words(l)[0];
    let x = line_words(t1);
    let z = line_words(t2);
    assert(line_words(l) =~= seq![ws]);
    lemma_line_words_join(t1, l);
    lemma_line_words_join(t1 + seq!['\n'] + l, t2);
    lemma_line_words_join(t1, t2);
    lemma_line_words_join(l, t2);
    assert(x + seq![ws] + z =~= (x + z).insert(x.len() as int, ws));
    lemma_title_line_insert(x + z, x.len() as int, ws);
    assert(seq![ws] + z =~= z.insert(0, ws));
    lemma_title_line_insert(z, 0, ws);
    assert(x + seq![ws] =~= x.insert(x.len() as int, ws));
    lemma_title_line_insert(x, x.len() as int, ws);
}

/// Every entry read from the first `k` lines of a residual file is the three words, in
/// order, of one of those lines that has exactly three words.
pub proof fn lemma_residual_entries_are_lines(lines: Seq<Seq<Seq<char>>>, k: int)
    requires
        0 <= k <= lines.len(),
    ensures
        residual_scan(lines, k) is Reading ==> forall|j: int|
            0 <= j < residual_scan(lines, k)->entries.len() ==> exists|m: int|
                0 <= m < k && lines[m].len() == 3 && #[trigger] residual_scan(lines, k)->entries[j]
                    == (lines[m][0], lines[m][1], lines[m][2]),
    decreases k,
{
    if k > 0 {
        lemma_residual_entries_are_lines(lines, k - 1);
        let prev = residual_scan(lines, k - 1);
        let cur = residual_scan(lines, k);
        if cur is Reading {
            assert(prev is Reading);
            let ws = lines[k - 1];
            assert forall|j: int| 0 <= j < cur->entries.len() implies exists|m: int|
                0 <= m < k && lines[m].len() == 3 && #[trigger] cur->entries[j] == (
                    lines[m][0],
                    lines[m][1],
                    lines[m][2],
                ) by {
                if j < prev->entries.len() {
                    assert(cur->entries[j] == prev->entries[j]);
                    let m = choose|m: int|
                        0 <= m < k - 1 && lines[m].len() == 3 && #[trigger] prev->entries[j] == (
                            lines[m][0],
                            lines[m][1],
                            lines[m][2],
                        );
                    assert(0 <= m < k && lines[m].len() == 3);
                } else {
                    assert(cur->entries == prev->entries.push(first_three(ws)));
                    assert(ws.len() == 3);
                    assert(cur->entries[j] == (lines[k - 1][0], lines[k - 1][1], lines[k - 1][2]));
                }
            }
        }
    }
}

/// Every entry of a residual file that reads without error is the three words, in order,
/// of one of its lines that has exactly three words.
pub proof fn lemma_residual_result_entries(text: Seq<char>)
    ensures
        residual_result(text) is Ok ==> forall|j: int|
            0 <= j < residual_result(text)->Ok_0.len() ==> exists|m: int|
                0 <= m < line_words(text).len() && line_words(text)[m].len() == 3
                    && #[trigger] residual_result(text)->Ok_0[j] == (
                    line_words(text)[m][0],
                    line_words(text)[m][1],
                    line_words(text)[m][2],
                ),
{
    let lines = line_words(text);
    lemma_residual_entries_are_lines(lines, lines.len() as int);
}

/// A data line (exactly three number words, the first not a header keyword) appended to
/// the lines of a residual file that read without error adds one entry at the end: the
/// line's three words, in order.
pub proof fn lemma_residual_data_line_appended(lines: Seq<Seq<Seq<char>>>, ws: Seq<Seq<char>>)
    requires
        residual_scan(lines, lines.len() as int) is Reading,
        ws.len() == 3,
        is_float_literal(ws[0]),
        is_float_literal(ws[1]),
        is_float_literal(ws[2]),
        !starts_with(ws[0], kw_title()),
        !starts_with(ws[0], kw_size()),
        !starts_with(ws[0], kw_domain_min()),
        !starts_with(ws[0], kw_domain_max()),
    ensures
        residual_scan(lines.push(ws), lines.len() + 1 as int) is Reading,
        residual_scan(lines.push(ws), lines.len() + 1 as int)->entries == residual_scan(
            lines,
            lines.len() as int,
        )->entries.push((ws[0], ws[1], ws[2])),
{
    let ext = lines.push(ws);
    assert forall|m: int| 0 <= m < lines.len() implies ext[m] == lines[m] by {}
    lemma_scans_agree_on_prefix(ext, lines, lines.len() as int);
    assert(ext[lines.len() as int] == ws);
}

/// On text: a residual file that reads without error, followed by a newline and a data
/// line, reads as the same entries followed by the line's three words, in order.
pub proof fn lemma_residual_data_line_in_text(t: Seq<char>, l: Seq<char>)
    requires
        residual_result(t) is Ok,
        forall|i: int| 0 <= i < l.len() ==> l[i] != '\n',
        line_words(l)[0].len() == 3,
        is_float_literal(line_words(l)[0][0]),
        is_float_literal(line_words(l)[0][1]),
        is_float_literal(line_words(l)[0][2]),
        !starts_with(line_words(l)[0][0], kw_title()),
        !starts_with(line_words(l)[0][0], kw_size()),
        !starts_with(line_words(l)[0][0], kw_domain_min()),
        !starts_with(line_words(l)[0][0], kw_domain_max()),
    ensures
        residual_result(t + seq!['\n'] + l) == Ok::<Seq<TokenTriple>, CubeError>(
            residual_result(t)->Ok_0.push(
                (line_words(l)[0][0], line_words(l)[0][1], line_words(l)[0][2]),
            ),
        ),
{
    lemma_line_words_single(l);
    let ws = line_words(l)[0];
    let x = line_words(t);
    assert(line_words(l) =~= seq![ws]);
    lemma_line_words_join(t, l);
    assert(x + seq![ws] =~= x.push(ws));
    lemma_residual_data_line_appended(x, ws);
}

/// Every entry read from the first `k` lines of a full LUT file is the first three words,
/// in order, of one of those lines that has at least three words.
pub proof fn lemma_lut3d_entries_are_lines(lines: Seq<Seq<Seq<char>>>, k: int)
    requires
        0 <= k <= lines.len(),
    ensures
        lut3d_scan(lines, k) is Reading ==> forall|j: int|
            0 <= j < lut3d_scan(lines, k)->entries.len() ==> exists|m: int|
                0 <= m < k && lines[m].len() >= 3 && #[trigger] lut3d_scan(lines, k)->entries[j]
                    == (lines[m][0], lines[m][1], lines[m][2]),
    decreases k,
{
    if k > 0 {
        lemma_lut3d_entries_are_lines(lines, k - 1);
        let prev = lut3d_scan(lines, k - 1);
        let cur = lut3d_scan(lines, k);
        if cur is Reading {
            assert(prev is Reading);
            let ws = lines[k - 1];
            assert forall|j: int| 0 <= j < cur->entries.len() implies exists|m: int|
                0 <= m < k && lines[m].len() >= 3 && #[trigger] cur->entries[j] == (
                    lines[m][0],
                    lines[m][1],
                    lines[m][2],
                ) by {
                if j < prev->entries.len() {
                    assert(cur->entries[j] == prev->entries[j]);
                    let m = choose|m: int|
                        0 <= m < k - 1 && lines[m].len() >= 3 && #[trigger] prev->entries[j] == (
                            lines[m][0],
                            lines[m][1],
                            lines[m][2],
                        );
                    assert(0 <= m < k && lines[m].len() >= 3);
                } else {
                    assert(cur->entries == prev->entries.push(first_three(ws)));
                    assert(ws.len() >= 3);
                    assert(cur->entries[j] == (lines[k - 1][0], lines[k - 1][1], lines[k - 1][2]));
                }
            }
        }
    }
}

/// `t` is the first three words, in order, of some line of `lines` that has at least
/// three words.
pub open spec fn is_first_three_of_a_line(lines: Seq<Seq<Seq<char>>>, t: TokenTriple) -> bool {
    exists|m: int|
        0 <= m < lines.len() && lines[m].len() >= 3 && t == (lines[m][0], lines[m][1], lines[m][2])
}

/// Every entry of a full LUT file that reads without error is the first three words, in
/// order, of one of its lines.
pub proof fn lemma_lut3d_result_entries(text: Seq<char>)
    ensures
        lut3d_result(text) is Ok ==> forall|j: int|
            0 <= j < lut3d_result(text)->Ok_0.1.len() ==> #[trigger] is_first_three_of_a_line(
                line_words(text),
                lut3d_result(text)->Ok_0.1[j],
            ),
{
    let lines = line_words(text);
    lemma_lut3d_entries_are_lines(lines, lines.len() as int);
    if lut3d_result(text) is Ok {
        let st = lut3d_scan(lines, lines.len() as int);
        assert(lut3d_result(text)->Ok_0.1 == st->entries);
        assert forall|j: int| 0 <= j < lut3d_result(text)->Ok_0.1.len()
            implies #[trigger] is_first_three_of_a_line(lines, lut3d_result(text)->Ok_0.1[j]) by {
            assert(st->entries[j] == lut3d_result(text)->Ok_0.1[j]);
        }
    }
}

/// A data line (at least three words, the first three numbers, the first word neither a
/// comment nor a keyword) appended to the lines of a full LUT file that read without
/// error adds one entry at the end, its first three words in order, and keeps the size.
pub proof fn lemma_lut3d_data_line_appended(lines: Seq<Seq<Seq<char>>>, ws: Seq<Seq<char>>)
    requires
        lut3d_scan(lines, lines.len() as int) is Reading,
        ws.len() >= 3,
        is_float_literal(ws[0]),
        is_float_literal(ws[1]),
        is_float_literal(ws[2]),
        !starts_with(ws[0], kw_comment()),
        !starts_with(ws[0], kw_title()),
        !starts_with(ws[0], kw_size()),
        !starts_with(ws[0], kw_domain_min()),
        !starts_with(ws[0], kw_domain_max()),
    ensures
        lut3d_scan(lines.push(ws), lines.len() + 1 as int) is Reading,
        lut3d_scan(lines.push(ws), lines.len() + 1 as int)->size == lut3d_scan(
            lines,
            lines.len() as int,
        )->size,
        lut3d_scan(lines.push(ws), lines.len() + 1 as int)->entries == lut3d_scan(
            lines,
            lines.len() as int,
        )->entries.push((ws[0], ws[1], ws[2])),
{
    let ext = lines.push(ws);
    assert forall|m: int| 0 <= m < lines.len() implies ext[m] == lines[m] by {}
    lemma_scans_agree_on_prefix(ext, lines, lines.len() as int);
    assert(ext[lines.len() as int] == ws);
}

/// A `LUT_3D_SIZE` line appended to the lines of a full LUT file that read without error
/// sets the size to the integer that its second word spells and keeps the entries read so
/// far; where the second word is no unsigned integer the file is rejected for its size,
/// whatever follows.
pub proof fn lemma_lut3d_size_line_appended(
    lines: Seq<Seq<Seq<char>>>,
    ws: Seq<Seq<char>>,
    rest: Seq<Seq<Seq<char>>>,
)
    requires
        lut3d_scan(lines, lines.len() as int) is Reading,
        ws.len() >= 2,
        starts_with(ws[0], kw_size()),
    ensures
        usize_literal(ws[1]) matches Some(v) ==> lut3d_scan(
            lines.push(ws),
            lines.len() + 1 as int,
        ) == (CubeScan::Reading {
            size: v,
            entries: lut3d_scan(lines, lines.len() as int)->entries,
        }),
        usize_literal(ws[1]) is None ==> lut3d_scan(
            lines.push(ws) + rest,
            lines.len() + 1 + rest.len() as int,
        ) == CubeScan::BadSize,
{
    lemma_keyword_first_char(ws[0]);
    let ext = lines.push(ws);
    assert forall|m: int| 0 <= m < lines.len() implies ext[m] == lines[m] by {}
    lemma_scans_agree_on_prefix(ext, lines, lines.len() as int);
    assert(ext[lines.len() as int] == ws);
    let all = ext + rest;
    assert forall|m: int| 0 <= m < ext.len() implies all[m] == ext[m] by {}
    lemma_scans_agree_on_prefix(all, ext, ext.len() as int);
    if usize_literal(ws[1]) is None {
        lemma_scan_stays_failed(all, ext.len() as int, all.len() as int);
    }
}

/// A 3D LUT of `size³` cells addressed `[r][g][b]`.
pub struct Lut3D<V> {
    /// Grid points per axis.
    pub size: usize,
    /// Cell values, indexed `[r][g][b]`.
    pub data: Vec<Vec<Vec<V>>>,
}

impl<V> Lut3D<V> {
    /// Every axis of the grid has `size` points.
    pub open spec fn wf(&self) -> bool {
        &&& self.data@.len() == self.size
        &&& forall|r: int| 0 <= r < self.size ==> (#[trigger] self.data@[r])@.len() == self.size
        &&& forall|r: int, g: int|
            0 <= r < self.size && 0 <= g < self.size ==> (#[trigger] self.data@[r]@[g])@.len()
                == self.size
    }

    /// The value of cell `(r, g, b)`.
    pub open spec fn cell(&self, r: int, g: int, b: int) -> V {
        self.data@[r]@[g]@[b]
    }
}

impl<V: Copy> Lut3D<V> {
    /// Builds the grid from the values of a `.cube` file in file order, where blue
    /// changes fastest, then green, then red: value `L` goes to
    /// `(L / size², (L / size) mod size, L mod size)`.
    pub fn from_flat(size: usize, values: &Vec<V>) -> (lut: Lut3D<V>)
        requires
            values@.len() == size * size * size,
        ensures
            lut.size == size,
            lut.wf(),
            forall|r: int, g: int, b: int|
                0 <= r < size && 0 <= g < size && 0 <= b < size ==> #[trigger] lut.cell(r, g, b)
                    == values@[(r * size + g) * size + b],
    {
        let total = values.len();
        let mut data: Vec<Vec<Vec<V>>> = Vec::new();
        let mut idx: usize = 0;
        let mut r: usize = 0;
        while r < size
            invariant
                values@.len() == size * size * size,
                total == values@.len(),
                0 <= r <= size,
                idx == r * size * size,
                data@.len() == r,
                forall|a: int| 0 <= a < r ==> (#[trigger] data@[a])@.len() == size,
                forall|a: int, g: int|
                    0 <= a < r && 0 <= g < size ==> (#[trigger] data@[a]@[g])@.len() == size,
                forall|a: int, g: int, b: int|
                    0 <= a < r && 0 <= g < size && 0 <= b < size ==> #[trigger] data@[a]@[g]@[b]
                        == values@[(a * size + g) * size + b],
            decreases size - r,
        {
            let mut plane: Vec<Vec<V>> = Vec::new();
            let mut g: usize = 0;
            while g < size
                invariant
                    values@.len() == size * size * size,
                total == values@.len(),
                    r < size,
                    0 <= g <= size,
                    idx == (r * size + g) * size,
                    plane@.len() == g,
                    forall|a: int| 0 <= a < g ==> (#[trigger] plane@[a])@.len() == size,
                    forall|a: int, b: int|
                        0 <= a < g && 0 <= b < size ==> #[trigger] plane@[a]@[b] == values@[(r
                            * size + a) * size + b],
                decreases size - g,
            {
                let mut row: Vec<V> = Vec::new();
                let mut b: usize = 0;
                while b < size
                    invariant
                        values@.len() == size * size * size,
                total == values@.len(),
                        r < size,
                        g < size,
                        0 <= b <= size,
                        idx == (r * size + g) * size + b,
                        row@.len() == b,
                        forall|a: int| 0 <= a < b ==> #[trigger] row@[a] == values@[(r * size + g)
                            * size + a],
                    decreases size - b,
                {
                    assert((r * size + g) * size + b < size * size * size) by (nonlinear_arith)
                        requires r < size, g < size, b < size;
                    row.push(values[idx]);
                    idx += 1;
                    b += 1;
                }
                plane.push(row);
                assert(idx == (r * size + (g + 1)) * size) by (nonlinear_arith)
                    requires idx == (r * size + g) * size + size;
                g += 1;
            }
            data.push(plane);
            assert(idx == (r + 1) * size * size) by (nonlinear_arith)
                requires idx == (r * size + size) * size;
            r += 1;
        }
        Lut3D { size, data }
    }
}

} // verus!
