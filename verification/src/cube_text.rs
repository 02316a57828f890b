//! Splitting text into lines of whitespace-separated words, and the number grammars
//! that `.cube` files use.
use vstd::prelude::*;

verus! {

/// Whether `c` has the Unicode `White_Space` property (what `char::is_whitespace` tests).
pub open spec fn is_space(c: char) -> bool {
    let v = c as u32;
    ||| 0x9 <= v <= 0xd
    ||| v == 0x20
    ||| v == 0x85
    ||| v == 0xa0
    ||| v == 0x1680
    ||| 0x2000 <= v <= 0x200a
    ||| v == 0x2028
    ||| v == 0x2029
    ||| v == 0x202f
    ||| v == 0x205f
    ||| v == 0x3000
}

/// Executable whitespace test.
pub fn is_space_char(c: char) -> (b: bool)
    ensures
        b == is_space(c),
{
    let v = c as u32;
    (0x9 <= v && v <= 0xd) || v == 0x20 || v == 0x85 || v == 0xa0 || v == 0x1680 || (0x2000 <= v
        && v <= 0x200a) || v == 0x2028 || v == 0x2029 || v == 0x202f || v == 0x205f || v == 0x3000
}

/// The lines of `text` (separated by `'\n'`), each given as its whitespace-separated
/// words. A text of `k` newlines has `k + 1` lines.
pub open spec fn line_words(text: Seq<char>) -> Seq<Seq<Seq<char>>>
    decreases text.len(),
{
    if text.len() == 0 {
        seq![Seq::empty()]
    } else {
        let before = line_words(text.drop_last());
        let ch = text.last();
        let line = before.last();
        if ch == '\n' {
            before.push(Seq::empty())
        } else if is_space(ch) {
            before
        } else if text.len() >= 2 && !is_space(text[text.len() - 2]) {
            before.update(
                before.len() - 1,
                line.update(line.len() - 1, line.last().push(ch)),
            )
        } else {
            before.update(before.len() - 1, line.push(seq![ch]))
        }
    }
}

proof fn lemma_line_words_shape(text: Seq<char>)
    ensures
        line_words(text).len() >= 1,
        text.len() >= 1 && !is_space(text.last()) ==> line_words(text).last().len() >= 1,
    decreases text.len(),
{
    if text.len() > 0 {
        lemma_line_words_shape(text.drop_last());
    }
}

/// A newline separates lines: the lines of `a`, a newline and `b` are the lines of `a`
/// followed by the lines of `b`.
pub proof fn lemma_line_words_join(a: Seq<char>, b: Seq<char>)
    ensures
        line_words(a + seq!['\n'] + b) == line_words(a) + line_words(b),
    decreases b.len(),
{
    let s = a + seq!['\n'] + b;
    if b.len() == 0 {
        assert(s.drop_last() =~= a);
        assert(s.last() == '\n');
        assert(line_words(a).push(Seq::empty()) =~= line_words(a) + line_words(b));
    } else {
        let b1 = b.drop_last();
        lemma_line_words_join(a, b1);
        lemma_line_words_shape(b1);
        assert(s.drop_last() =~= a + seq!['\n'] + b1);
        assert(s.last() == b.last());
        let x = line_words(a);
        let y = line_words(b1);
        let ch = b.last();
        let line = y.last();
        assert((x + y).last() == line);
        if b.len() >= 2 {
            assert(s[s.len() - 2] == b[b.len() - 2]);
        } else {
            assert(s[s.len() - 2] == '\n');
        }
        if ch == '\n' {
            assert((x + y).push(Seq::empty()) =~= x + y.push(Seq::empty()));
        } else if is_space(ch) {
        } else if b.len() >= 2 && !is_space(b[b.len() - 2]) {
            let v = line.update(line.len() - 1, line.last().push(ch));
            assert((x + y).update(x.len() + y.len() - 1, v) =~= x + y.update(y.len() - 1, v));
        } else {
            let v = line.push(seq![ch]);
            assert((x + y).update(x.len() + y.len() - 1, v) =~= x + y.update(y.len() - 1, v));
        }
    }
}

/// A text without a newline is a single line.
pub proof fn lemma_line_words_single(l: Seq<char>)
    requires
        forall|i: int| 0 <= i < l.len() ==> l[i] != '\n',
    ensures
        line_words(l).len() == 1,
    decreases l.len(),
{
    if l.len() > 0 {
        let l1 = l.drop_last();
        assert forall|i: int| 0 <= i < l1.len() implies l1[i] != '\n' by {
            assert(l1[i] == l[i]);
        }
        lemma_line_words_single(l1);
        assert(l.last() == l[l.len() - 1]);
    }
}

/// Splits `text` into lines and each line into its whitespace-separated words.
pub fn split_line_words(text: &Vec<char>) -> (lines: Vec<Vec<Vec<char>>>)
    ensures
        lines@.len() == line_words(text@).len(),
        forall|i: int|
            0 <= i < lines@.len() ==> (#[trigger] lines@[i])@.len() == line_words(text@)[i].len(),
        forall|i: int, j: int|
            0 <= i < lines@.len() && 0 <= j < lines@[i]@.len() ==> (#[trigger] lines@[i]@[j])@
                == line_words(text@)[i][j],
{
    let n = text.len();
    let mut lines: Vec<Vec<Vec<char>>> = Vec::new();
    lines.push(Vec::new());
    let mut prev_space = true;
    let mut k: usize = 0;
    assert(text@.take(0) =~= Seq::<char>::empty());
    while k < n
        invariant
            n == text@.len(),
            0 <= k <= n,
            lines@.len() >= 1,
            prev_space == (k == 0 || is_space(text@[k - 1])),
            lines@.len() == line_words(text@.take(k as int)).len(),
            forall|i: int|
                0 <= i < lines@.len() ==> (#[trigger] lines@[i])@.len() == line_words(
                    text@.take(k as int),
                )[i].len(),
            forall|i: int, j: int|
                0 <= i < lines@.len() && 0 <= j < lines@[i]@.len() ==> (#[trigger] lines@[i]@[j])@
                    == line_words(text@.take(k as int))[i][j],
        decreases n - k,
    {
        let ch = text[k];
        let ghost pre = text@.take(k as int);
        let ghost cur = text@.take(k + 1);
        proof {
            assert(cur.drop_last() =~= pre);
            assert(cur.last() == ch);
            lemma_line_words_shape(pre);
            if k >= 1 {
                assert(cur[cur.len() - 2] == text@[k - 1]);
                assert(pre.last() == text@[k - 1]);
            }
        }
        let ghost old_lines = lines@;
        let last = lines.len() - 1;
        if ch == '\n' {
            lines.push(Vec::new());
            prev_space = true;
            proof {
                assert forall|i: int, j: int|
                    0 <= i < lines@.len() && 0 <= j < lines@[i]@.len() implies (
                    #[trigger] lines@[i]@[j])@ == line_words(cur)[i][j] by {
                    assert(lines@[i] == old_lines[i]);
                }
            }
        } else if is_space_char(ch) {
            prev_space = true;
        } else if !prev_space {
            let wl = lines[last].len() - 1;
            lines[last][wl].push(ch);
            prev_space = false;
            proof {
                assert forall|i: int|
                    0 <= i < lines@.len() implies (#[trigger] lines@[i])@.len() == line_words(
                    cur,
                )[i].len() by {
                    if i != last {
                        assert(lines@[i] == old_lines[i]);
                    }
                }
                assert forall|i: int, j: int|
                    0 <= i < lines@.len() && 0 <= j < lines@[i]@.len() implies (
                    #[trigger] lines@[i]@[j])@ == line_words(cur)[i][j] by {
                    if i != last {
                        assert(lines@[i] == old_lines[i]);
                    } else if j != wl {
                        assert(lines@[i]@[j] == old_lines[i]@[j]);
                    }
                }
            }
        } else {
            let mut word: Vec<char> = Vec::new();
            word.push(ch);
            lines[last].push(word);
            prev_space = false;
            proof {
                assert(word@ =~= seq![ch]);
                assert forall|i: int|
                    0 <= i < lines@.len() implies (#[trigger] lines@[i])@.len() == line_words(
                    cur,
                )[i].len() by {
                    if i != last {
                        assert(lines@[i] == old_lines[i]);
                    }
                }
                assert forall|i: int, j: int|
                    0 <= i < lines@.len() && 0 <= j < lines@[i]@.len() implies (
                    #[trigger] lines@[i]@[j])@ == line_words(cur)[i][j] by {
                    if i != last {
                        assert(lines@[i] == old_lines[i]);
                    } else if j < old_lines[i]@.len() {
                        assert(lines@[i]@[j] == old_lines[i]@[j]);
                    }
                }
            }
        }
        k += 1;
    }
    assert(text@.take(n as int) =~= text@);
    lines
}


/// Whether `c` is an ASCII decimal digit.
pub open spec fn is_digit(c: char) -> bool {
    '0' <= c <= '9'
}

/// Value of the ASCII digit `c`.
pub open spec fn digit_value(c: char) -> int {
    (c as u32) - ('0' as u32)
}

/// Decimal value of a string of digits.
pub open spec fn digits_value(s: Seq<char>) -> int
    decreases s.len(),
{
    if s.len() == 0 {
        0
    } else {
        digits_value(s.drop_last()) * 10 + digit_value(s.last())
    }
}

/// Whether every character of `s` is a digit.
pub open spec fn all_digits(s: Seq<char>) -> bool {
    forall|i: int| 0 <= i < s.len() ==> is_digit(#[trigger] s[i])
}

/// Number of leading sign characters (`+` or `-`) of a number literal: zero or one.
pub open spec fn sign_len(s: Seq<char>) -> int {
    if s.len() > 0 && (s[0] == '+' || s[0] == '-') {
        1
    } else {
        0
    }
}

/// The value of `s` read as an unsigned integer literal the way `usize::from_str`
/// reads it: an optional `+`, then one or more decimal digits, with a value that fits
/// in `usize`; `None` for anything else.
pub open spec fn usize_literal(s: Seq<char>) -> Option<int> {
    let body = if s.len() > 0 && s[0] == '+' {
        s.drop_first()
    } else {
        s
    };
    if body.len() > 0 && all_digits(body) && digits_value(body) <= usize::MAX {
        Some(digits_value(body))
    } else {
        None
    }
}

proof fn lemma_digits_value_prefix(s: Seq<char>, i: int)
    requires
        all_digits(s),
        0 <= i <= s.len(),
    ensures
        0 <= digits_value(s.take(i)) <= digits_value(s),
    decreases s.len(),
{
    if s.len() > 0 {
        if i == s.len() {
            assert(s.take(i) =~= s);
            lemma_digits_value_prefix(s.drop_last(), i - 1);
            assert(s.drop_last().take(i - 1) =~= s.drop_last());
        } else {
            lemma_digits_value_prefix(s.drop_last(), i);
            assert(s.drop_last().take(i) =~= s.take(i));
            assert(digit_value(s.last()) >= 0);
        }
    }
}

/// Reads an unsigned integer literal as `usize::from_str` does.
pub fn parse_usize(s: &Vec<char>) -> (res: Option<usize>)
    ensures
        match res {
            Some(v) => usize_literal(s@) == Some(v as int),
            None => usize_literal(s@) is None,
        },
{
    let n = s.len();
    let start: usize = if n > 0 && s[0] == '+' { 1 } else { 0 };
    let ghost body = if s@.len() > 0 && s@[0] == '+' { s@.drop_first() } else { s@ };
    assert(body =~= s@.subrange(start as int, n as int));
    assert(usize_literal(s@) == (if body.len() > 0 && all_digits(body) && digits_value(body)
        <= usize::MAX {
        Some(digits_value(body))
    } else {
        None
    }));
    if start >= n {
        return None;
    }
    let mut value: usize = 0;
    let mut i: usize = start;
    while i < n
        invariant
            n == s@.len(),
            start <= i <= n,
            body =~= s@.subrange(start as int, n as int),
            usize_literal(s@) == (if body.len() > 0 && all_digits(body) && digits_value(body)
                <= usize::MAX {
                Some(digits_value(body))
            } else {
                None
            }),
            all_digits(body.take(i - start)),
            value == digits_value(body.take(i - start)),
        decreases n - i,
    {
        let c = s[i];
        let ghost pre = body.take(i - start);
        let ghost cur = body.take(i - start + 1);
        assert(cur.drop_last() =~= pre);
        assert(cur.last() == c);
        assert(body[i - start] == c);
        if !('0' <= c && c <= '9') {
            assert(!is_digit(body[i - start]));
            assert(!all_digits(body));
            return None;
        }
        let d = (c as u32 - '0' as u32) as usize;
        if value > (usize::MAX - d) / 10 {
            proof {
                assert forall|j: int| 0 <= j < cur.len() implies is_digit(#[trigger] cur[j]) by {
                    if j < cur.len() - 1 {
                        assert(cur[j] == pre[j]);
                    }
                }
                assert(all_digits(cur));
                assert(digits_value(cur) > usize::MAX) by (nonlinear_arith)
                    requires
                        digits_value(cur) == value * 10 + d,
                        value > (usize::MAX - d) / 10,
                        0 <= d <= 9,
                ;
                if all_digits(body) {
                    lemma_digits_value_prefix(body, i - start + 1);
                    assert(digits_value(body) > usize::MAX);
                }
            }
            return None;
        }
        assert(value * 10 + d <= usize::MAX) by (nonlinear_arith)
            requires value <= (usize::MAX - d) / 10, 0 <= d <= 9;
        value = value * 10 + d;
        i += 1;
    }
    assert(body.take(n - start) =~= body);
    Some(value)
}

/// ASCII lower-casing of a character.
pub open spec fn ascii_lower(c: char) -> char {
    if 'A' <= c <= 'Z' {
        ((c as u32) + 32) as char
    } else {
        c
    }
}

/// Whether `s` equals the lower-case word `w` up to ASCII case.
pub open spec fn eq_ignore_case(s: Seq<char>, w: Seq<char>) -> bool {
    s.len() == w.len() && forall|i: int| 0 <= i < s.len() ==> ascii_lower(#[trigger] s[i]) == w[i]
}

/// A decimal mantissa: digits with at most one `.` and at least one digit.
pub open spec fn is_mantissa(m: Seq<char>) -> bool {
    &&& forall|i: int| 0 <= i < m.len() ==> is_digit(#[trigger] m[i]) || m[i] == '.'
    &&& forall|i: int, j: int| 0 <= i < j < m.len() && #[trigger] m[i] == '.' ==> #[trigger] m[j] != '.'
    &&& exists|i: int| 0 <= i < m.len() && is_digit(#[trigger] m[i])
}

/// An exponent after `e`: an optional sign, then one or more digits.
pub open spec fn is_exponent(x: Seq<char>) -> bool {
    x.len() > sign_len(x) && all_digits(x.skip(sign_len(x)))
}

/// Whether `c` is the exponent marker `e` or `E`.
pub open spec fn is_exp_marker(c: char) -> bool {
    c == 'e' || c == 'E'
}

/// A number literal without sign: a mantissa, optionally followed by `e`/`E` and an
/// exponent.
pub open spec fn is_unsigned_number(b: Seq<char>) -> bool {
    ||| (forall|i: int| 0 <= i < b.len() ==> !is_exp_marker(#[trigger] b[i])) && is_mantissa(b)
    ||| exists|i: int|
        0 <= i < b.len() && is_exp_marker(#[trigger] b[i]) && is_mantissa(b.take(i))
            && is_exponent(b.skip(i + 1))
}

/// Whether `s` is accepted by `f32::from_str`, whose documented grammar is
/// `Sign? ('inf' | 'infinity' | 'nan' | Number)` with
/// `Number ::= (Digit+ | Digit+ '.' Digit* | Digit* '.' Digit+) Exp?`,
/// `Exp ::= 'e' Sign? Digit+`, `Sign ::= [+-]`, letters matched without regard to case.
pub open spec fn is_float_literal(s: Seq<char>) -> bool {
    let b = s.skip(sign_len(s));
    ||| eq_ignore_case(b, seq!['i', 'n', 'f'])
    ||| eq_ignore_case(b, seq!['i', 'n', 'f', 'i', 'n', 'i', 't', 'y'])
    ||| eq_ignore_case(b, seq!['n', 'a', 'n'])
    ||| is_unsigned_number(b)
}

fn matches_lower(c: char, w: char) -> (b: bool)
    requires
        'a' <= w <= 'z',
    ensures
        b == (ascii_lower(c) == w),
{
    c == w || ('A' <= c && c <= 'Z' && c as u32 + 32 == w as u32)
}


fn is_digit_char(c: char) -> (b: bool)
    ensures
        b == is_digit(c),
{
    '0' <= c && c <= '9'
}

/// Whether `s[lo..n]` equals the lower-case word `w` up to ASCII case.
fn tail_eq_ignore_case(s: &Vec<char>, lo: usize, w: &Vec<char>) -> (b: bool)
    requires
        lo <= s@.len(),
        forall|i: int| 0 <= i < w@.len() ==> 'a' <= #[trigger] w@[i] <= 'z',
    ensures
        b == eq_ignore_case(s@.subrange(lo as int, s@.len() as int), w@),
{
    let n = s.len();
    let ghost t = s@.subrange(lo as int, n as int);
    if n - lo != w.len() {
        return false;
    }
    let mut i: usize = 0;
    while i < w.len()
        invariant
            n == s@.len(),
            lo <= n,
            t == s@.subrange(lo as int, n as int),
            n - lo == w@.len(),
            forall|k: int| 0 <= k < w@.len() ==> 'a' <= #[trigger] w@[k] <= 'z',
            0 <= i <= w@.len(),
            forall|k: int| 0 <= k < i ==> ascii_lower(#[trigger] t[k]) == w@[k],
        decreases w@.len() - i,
    {
        assert(t[i as int] == s@[lo + i]);
        if !matches_lower(s[lo + i], w[i]) {
            return false;
        }
        i += 1;
    }
    true
}

/// Whether `s[lo..hi]` is a mantissa.
fn check_mantissa(s: &Vec<char>, lo: usize, hi: usize) -> (b: bool)
    requires
        lo <= hi <= s@.len(),
    ensures
        b == is_mantissa(s@.subrange(lo as int, hi as int)),
{
    let ghost m = s@.subrange(lo as int, hi as int);
    let mut seen_dot = false;
    let mut seen_digit = false;
    let mut i: usize = lo;
    while i < hi
        invariant
            lo <= i <= hi <= s@.len(),
            m == s@.subrange(lo as int, hi as int),
            forall|k: int| 0 <= k < i - lo ==> is_digit(#[trigger] m[k]) || m[k] == '.',
            forall|j: int, k: int|
                0 <= j < k < i - lo && #[trigger] m[j] == '.' ==> #[trigger] m[k] != '.',
            seen_dot == (exists|k: int| 0 <= k < i - lo && #[trigger] m[k] == '.'),
            seen_digit == (exists|k: int| 0 <= k < i - lo && is_digit(#[trigger] m[k])),
        decreases hi - i,
    {
        let c = s[i];
        assert(m[i - lo] == c);
        if c == '.' {
            if seen_dot {
                proof {
                    let j = choose|k: int| 0 <= k < i - lo && #[trigger] m[k] == '.';
                    assert(m[j] == '.' && m[i - lo] == '.');
                }
                return false;
            }
            seen_dot = true;
        } else if is_digit_char(c) {
            seen_digit = true;
        } else {
            return false;
        }
        i += 1;
    }
    seen_digit
}

/// Whether `s[lo..hi]` is an exponent.
fn check_exponent(s: &Vec<char>, lo: usize, hi: usize) -> (b: bool)
    requires
        lo <= hi <= s@.len(),
    ensures
        b == is_exponent(s@.subrange(lo as int, hi as int)),
{
    let ghost x = s@.subrange(lo as int, hi as int);
    let start = if lo < hi && (s[lo] == '+' || s[lo] == '-') { lo + 1 } else { lo };
    assert(start - lo == sign_len(x));
    assert(x.skip(sign_len(x)) =~= s@.subrange(start as int, hi as int));
    if start >= hi {
        return false;
    }
    let mut i: usize = start;
    while i < hi
        invariant
            start <= i <= hi <= s@.len(),
            lo <= start,
            x == s@.subrange(lo as int, hi as int),
            x.skip(sign_len(x)) =~= s@.subrange(start as int, hi as int),
            x.len() > sign_len(x),
            forall|k: int| start <= k < i ==> is_digit(#[trigger] s@[k]),
        decreases hi - i,
    {
        if !is_digit_char(s[i]) {
            assert(!is_digit(s@.subrange(start as int, hi as int)[i - start]));
            return false;
        }
        i += 1;
    }
    assert forall|k: int| 0 <= k < hi - start implies is_digit(
        #[trigger] s@.subrange(start as int, hi as int)[k],
    ) by {
        assert(s@.subrange(start as int, hi as int)[k] == s@[start + k]);
    }
    true
}

/// Whether `s` is a number literal that `f32::from_str` accepts.
pub fn check_float_literal(s: &Vec<char>) -> (b: bool)
    ensures
        b == is_float_literal(s@),
{
    let n = s.len();
    let sl: usize = if n > 0 && (s[0] == '+' || s[0] == '-') { 1 } else { 0 };
    let ghost body = s@.skip(sign_len(s@));
    assert(body =~= s@.subrange(sl as int, n as int));
    let inf = vec!['i', 'n', 'f'];
    let infinity = vec!['i', 'n', 'f', 'i', 'n', 'i', 't', 'y'];
    let nan = vec!['n', 'a', 'n'];
    assert(inf@ =~= seq!['i', 'n', 'f']);
    assert(infinity@ =~= seq!['i', 'n', 'f', 'i', 'n', 'i', 't', 'y']);
    assert(nan@ =~= seq!['n', 'a', 'n']);
    if tail_eq_ignore_case(s, sl, &inf) || tail_eq_ignore_case(s, sl, &infinity)
        || tail_eq_ignore_case(s, sl, &nan) {
        return true;
    }
    let mut e: usize = sl;
    while e < n && !(s[e] == 'e' || s[e] == 'E')
        invariant
            sl <= e <= n == s@.len(),
            forall|k: int| sl <= k < e ==> !is_exp_marker(#[trigger] s@[k]),
        decreases n - e,
    {
        e += 1;
    }
    let ghost ei = e - sl;
    assert forall|k: int| 0 <= k < ei implies !is_exp_marker(#[trigger] body[k]) by {
        assert(body[k] == s@[sl + k]);
    }
    if e == n {
        let r = check_mantissa(s, sl, n);
        proof {
            if !r {
                assert forall|i: int|
                    0 <= i < body.len() && is_exp_marker(#[trigger] body[i]) implies !(is_mantissa(
                        body.take(i),
                    ) && is_exponent(body.skip(i + 1))) by {}
            }
        }
        r
    } else {
        let r = check_mantissa(s, sl, e) && check_exponent(s, e + 1, n);
        proof {
            assert(body[ei] == s@[e as int]);
            assert(body.take(ei) =~= s@.subrange(sl as int, e as int));
            assert(body.skip(ei + 1) =~= s@.subrange(e + 1, n as int));
            if !r {
                assert forall|i: int|
                    0 <= i < body.len() && is_exp_marker(#[trigger] body[i]) implies !(is_mantissa(
                        body.take(i),
                    ) && is_exponent(body.skip(i + 1))) by {
                    if i > ei && is_mantissa(body.take(i)) {
                        assert(body.take(i)[ei] == body[ei]);
                    }
                }
            }
        }
        r
    }
}

} // verus!
