//! Text as sequences of characters: whitespace, trimming, searching, words
//! and decimal integers, each with its model.
use vstd::prelude::*;

verus! {

// ---------------------------------------------------------------------------
// Models
// ---------------------------------------------------------------------------

/// Unicode white space (the characters for which `char::is_whitespace` holds).
pub open spec fn is_ws(c: char) -> bool {
    let n = c as u32;
    ||| n == 0x20
    ||| (0x09 <= n && n <= 0x0d)
    ||| n == 0x85
    ||| n == 0xa0
    ||| n == 0x1680
    ||| (0x2000 <= n && n <= 0x200a)
    ||| n == 0x2028
    ||| n == 0x2029
    ||| n == 0x202f
    ||| n == 0x205f
    ||| n == 0x3000
}

/// The position of the first character at or after `i` that is not white space
/// (or the length, where there is none).
pub open spec fn skip_ws(s: Seq<char>, i: int) -> int
    decreases s.len() - i,
{
    if 0 <= i < s.len() && is_ws(s[i]) {
        skip_ws(s, i + 1)
    } else {
        i
    }
}

/// The end of `s.take(j)` once white space at its end is dropped.
pub open spec fn back_ws(s: Seq<char>, j: int) -> int
    decreases j,
{
    if 0 < j <= s.len() && is_ws(s[j - 1]) {
        back_ws(s, j - 1)
    } else {
        j
    }
}

/// `s` without white space at its start.
pub open spec fn trim_start(s: Seq<char>) -> Seq<char> {
    s.subrange(skip_ws(s, 0), s.len() as int)
}

/// `s` without white space at its end.
pub open spec fn trim_end(s: Seq<char>) -> Seq<char> {
    s.subrange(0, back_ws(s, s.len() as int))
}

/// `s` without white space at either end.
pub open spec fn trim(s: Seq<char>) -> Seq<char> {
    trim_end(trim_start(s))
}

/// `p` occurs in `s` at position `i`.
pub open spec fn occurs_at(s: Seq<char>, p: Seq<char>, i: int) -> bool {
    0 <= i && i + p.len() <= s.len() && s.subrange(i, i + p.len()) == p
}

/// The first position at or after `i` where `p` occurs in `s`.
pub open spec fn find_from(s: Seq<char>, p: Seq<char>, i: int) -> Option<int>
    decreases s.len() + 1 - i,
{
    if i < 0 || i + p.len() > s.len() {
        None
    } else if occurs_at(s, p, i) {
        Some(i)
    } else {
        find_from(s, p, i + 1)
    }
}

/// The first position where `p` occurs in `s`.
pub open spec fn find(s: Seq<char>, p: Seq<char>) -> Option<int> {
    find_from(s, p, 0)
}

/// The words of `s` from position `i` on, where `cur` is the part of a word
/// already read: the maximal runs of characters that are not white space.
pub open spec fn words_from(s: Seq<char>, i: int, cur: Seq<char>) -> Seq<Seq<char>>
    decreases s.len() - i,
{
    if i < 0 || i >= s.len() {
        if cur.len() > 0 {
            seq![cur]
        } else {
            Seq::empty()
        }
    } else if is_ws(s[i]) {
        (if cur.len() > 0 {
            seq![cur]
        } else {
            Seq::<Seq<char>>::empty()
        }) + words_from(s, i + 1, Seq::empty())
    } else {
        words_from(s, i + 1, cur.push(s[i]))
    }
}

/// The words of `s`, as `str::split_whitespace` gives them.
pub open spec fn words(s: Seq<char>) -> Seq<Seq<char>> {
    words_from(s, 0, Seq::empty())
}

/// An ASCII decimal digit.
pub open spec fn is_digit(c: char) -> bool {
    48 <= (c as u32) && (c as u32) <= 57
}

/// The value of a digit.
pub open spec fn digit_value(c: char) -> int {
    (c as u32) - 48
}

/// The value of a string of decimal digits.
pub open spec fn digits_value(s: Seq<char>) -> int
    decreases s.len(),
{
    if s.len() == 0 {
        0
    } else {
        digits_value(s.drop_last()) * 10 + digit_value(s.last())
    }
}

/// Every character is a digit.
pub open spec fn all_digits(s: Seq<char>) -> bool {
    forall|i: int| 0 <= i < s.len() ==> is_digit(#[trigger] s[i])
}

/// The `i32` that `s` writes in decimal, as `str::parse::<i32>` reads it:
/// an optional `+` or `-`, then one or more digits, and a value in range.
pub open spec fn parse_i32(s: Seq<char>) -> Option<i32> {
    let neg = s.len() > 0 && s[0] == '-';
    let signed = s.len() > 0 && (s[0] == '-' || s[0] == '+');
    let body = if signed {
        s.drop_first()
    } else {
        s
    };
    let v = if neg {
        -digits_value(body)
    } else {
        digits_value(body)
    };
    if body.len() == 0 || !all_digits(body) {
        None
    } else if i32::MIN <= v <= i32::MAX {
        Some(v as i32)
    } else {
        None
    }
}

// ---------------------------------------------------------------------------
// Facts
// ---------------------------------------------------------------------------

/// Skipping whitespace stays within the string.
pub proof fn lemma_skip_ws_bounds(s: Seq<char>, i: int)
    requires
        0 <= i <= s.len(),
    ensures
        i <= skip_ws(s, i) <= s.len(),
    decreases s.len() - i,
{
    if i < s.len() && is_ws(s[i]) {
        lemma_skip_ws_bounds(s, i + 1);
    }
}

/// Skipping whitespace backwards stays within the string.
pub proof fn lemma_back_ws_bounds(s: Seq<char>, j: int)
    requires
        0 <= j <= s.len(),
    ensures
        0 <= back_ws(s, j) <= j,
    decreases j,
{
    if 0 < j && is_ws(s[j - 1]) {
        lemma_back_ws_bounds(s, j - 1);
    }
}

/// Every character is white space.
pub open spec fn all_ws(w: Seq<char>) -> bool {
    forall|i: int| 0 <= i < w.len() ==> is_ws(#[trigger] w[i])
}

/// In a string of white space, skipping white space reaches the end.
pub proof fn lemma_skip_all_ws(w: Seq<char>, i: int)
    requires
        all_ws(w),
        0 <= i <= w.len(),
    ensures
        skip_ws(w, i) == w.len(),
    decreases w.len() - i,
{
    if i < w.len() {
        lemma_skip_all_ws(w, i + 1);
    }
}

/// Skipping white space in a suffix, counted from the whole string.
proof fn lemma_skip_ws_shift(p: Seq<char>, t: Seq<char>, j: int)
    requires
        0 <= j <= t.len(),
    ensures
        skip_ws(p + t, p.len() + j) == p.len() + skip_ws(t, j),
    decreases t.len() - j,
{
    if j < t.len() {
        assert((p + t)[p.len() + j] == t[j]);
        lemma_skip_ws_shift(p, t, j + 1);
    }
}

/// Skipping white space across the end of `s` into `w`.
proof fn lemma_skip_ws_concat(s: Seq<char>, w: Seq<char>, i: int)
    requires
        0 <= i <= s.len(),
    ensures
        skip_ws(s + w, i) == if skip_ws(s, i) < s.len() {
            skip_ws(s, i)
        } else {
            s.len() + skip_ws(w, 0)
        },
    decreases s.len() - i,
{
    if i < s.len() {
        assert((s + w)[i] == s[i]);
        lemma_skip_ws_concat(s, w, i + 1);
    } else {
        lemma_skip_ws_shift(s, w, 0);
    }
}

/// Skipping white space backwards within a prefix.
proof fn lemma_back_ws_prefix(s: Seq<char>, w: Seq<char>, j: int)
    requires
        0 <= j <= s.len(),
    ensures
        back_ws(s + w, j) == back_ws(s, j),
    decreases j,
{
    if j > 0 {
        assert((s + w)[j - 1] == s[j - 1]);
        lemma_back_ws_prefix(s, w, j - 1);
    }
}

/// Skipping white space backwards through trailing white space.
proof fn lemma_back_ws_append(s: Seq<char>, w: Seq<char>, j: int)
    requires
        all_ws(w),
        s.len() <= j <= s.len() + w.len(),
    ensures
        back_ws(s + w, j) == back_ws(s, s.len() as int),
    decreases j,
{
    if j > s.len() {
        assert((s + w)[j - 1] == w[j - 1 - s.len()]);
        lemma_back_ws_append(s, w, j - 1);
    } else {
        lemma_back_ws_prefix(s, w, j);
    }
}

/// Leading white space does not change the string with its start trimmed.
pub proof fn lemma_trim_start_leading(w: Seq<char>, s: Seq<char>)
    requires
        all_ws(w),
    ensures
        trim_start(w + s) == trim_start(s),
{
    lemma_skip_all_ws(w, 0);
    lemma_skip_ws_concat(w, s, 0);
    lemma_skip_ws_bounds(s, 0);
    assert((w + s).subrange(w.len() + skip_ws(s, 0), (w + s).len() as int) =~= s.subrange(
        skip_ws(s, 0),
        s.len() as int,
    ));
}

/// Trailing white space does not change the string with its end trimmed.
pub proof fn lemma_trim_end_trailing(s: Seq<char>, w: Seq<char>)
    requires
        all_ws(w),
    ensures
        trim_end(s + w) == trim_end(s),
{
    lemma_back_ws_append(s, w, (s + w).len() as int);
    lemma_back_ws_bounds(s, s.len() as int);
    assert((s + w).subrange(0, back_ws(s, s.len() as int)) =~= s.subrange(
        0,
        back_ws(s, s.len() as int),
    ));
}

/// White space around a string does not change it once trimmed.
pub proof fn lemma_trim_surrounding(w1: Seq<char>, s: Seq<char>, w2: Seq<char>)
    requires
        all_ws(w1),
        all_ws(w2),
    ensures
        trim(w1 + s + w2) == trim(s),
{
    assert(w1 + s + w2 =~= w1 + (s + w2));
    lemma_trim_start_leading(w1, s + w2);
    lemma_skip_ws_concat(s, w2, 0);
    lemma_skip_all_ws(w2, 0);
    lemma_skip_ws_bounds(s, 0);
    let k = skip_ws(s, 0);
    if k < s.len() {
        assert(trim_start(s + w2) =~= trim_start(s) + w2);
        lemma_trim_end_trailing(trim_start(s), w2);
    } else {
        assert(trim_start(s + w2) =~= Seq::<char>::empty());
        assert(trim_start(s) =~= Seq::<char>::empty());
    }
}

/// Trimming never lengthens.
pub proof fn lemma_trim_len(s: Seq<char>)
    ensures
        trim(s).len() <= s.len(),
        trim_start(s).len() <= s.len(),
{
    lemma_skip_ws_bounds(s, 0);
    let t = trim_start(s);
    lemma_back_ws_bounds(t, t.len() as int);
}

/// A match found by [`find_from`] lies inside `s`.
pub proof fn lemma_find_from_bounds(s: Seq<char>, p: Seq<char>, i: int)
    ensures
        find_from(s, p, i) matches Some(k) ==> i <= k && k + p.len() <= s.len() && occurs_at(s, p, k),
    decreases s.len() + 1 - i,
{
    if i < 0 || i + p.len() > s.len() {
    } else if occurs_at(s, p, i) {
    } else {
        lemma_find_from_bounds(s, p, i + 1);
    }
}

// ---------------------------------------------------------------------------
// Executable text
// ---------------------------------------------------------------------------

/// Appends a character to a string (`String::push`).
#[verifier::external_body]
pub(crate) fn push_char(s: &mut String, c: char)
    ensures
        final(s)@ == old(s)@.push(c),
{
    s.push(c);
}

/// The characters of a string.
pub fn chars_of(s: &str) -> (r: Vec<char>)
    ensures
        r@ == s@,
{
    let n = s.unicode_len();
    let mut out: Vec<char> = Vec::new();
    let mut i: usize = 0;
    while i < n
        invariant
            n == s@.len(),
            i <= n,
            out@ == s@.subrange(0, i as int),
        decreases n - i,
    {
        out.push(s.get_char(i));
        assert(out@ =~= s@.subrange(0, i + 1));
        i = i + 1;
    }
    assert(out@ =~= s@);
    out
}

/// The string made of the given characters.
pub fn string_of(v: &Vec<char>) -> (r: String)
    ensures
        r@ == v@,
{
    let mut out = String::new();
    let mut i: usize = 0;
    while i < v.len()
        invariant
            i <= v@.len(),
            out@ == v@.subrange(0, i as int),
        decreases v.len() - i,
    {
        push_char(&mut out, v[i]);
        assert(out@ =~= v@.subrange(0, i + 1));
        i = i + 1;
    }
    assert(out@ =~= v@);
    out
}

/// Whether a character is white space.
pub fn is_whitespace(c: char) -> (r: bool)
    ensures
        r == is_ws(c),
{
    let n = c as u32;
    n == 0x20 || (0x09 <= n && n <= 0x0d) || n == 0x85 || n == 0xa0 || n == 0x1680 || (0x2000
        <= n && n <= 0x200a) || n == 0x2028 || n == 0x2029 || n == 0x202f || n == 0x205f || n
        == 0x3000
}

/// The characters of `v` from `lo` to `hi`.
pub fn slice_chars(v: &Vec<char>, lo: usize, hi: usize) -> (r: Vec<char>)
    requires
        lo <= hi <= v@.len(),
    ensures
        r@ == v@.subrange(lo as int, hi as int),
{
    let mut out: Vec<char> = Vec::new();
    let mut i: usize = lo;
    while i < hi
        invariant
            lo <= i <= hi,
            hi <= v@.len(),
            out@ == v@.subrange(lo as int, i as int),
        decreases hi - i,
    {
        out.push(v[i]);
        assert(out@ =~= v@.subrange(lo as int, i + 1));
        i = i + 1;
    }
    out
}

/// Whether two character sequences are equal.
pub fn same_chars(a: &Vec<char>, b: &Vec<char>) -> (r: bool)
    ensures
        r == (a@ == b@),
{
    if a.len() != b.len() {
        return false;
    }
    let mut i: usize = 0;
    while i < a.len()
        invariant
            a@.len() == b@.len(),
            i <= a@.len(),
            forall|j: int| 0 <= j < i ==> a@[j] == b@[j],
        decreases a.len() - i,
    {
        if a[i] != b[i] {
            return false;
        }
        i = i + 1;
    }
    assert(a@ =~= b@);
    true
}

/// `v` without white space at either end.
pub fn trim_chars(v: &Vec<char>) -> (r: Vec<char>)
    ensures
        r@ == trim(v@),
{
    let mut lo: usize = 0;
    while lo < v.len() && is_whitespace(v[lo])
        invariant
            lo <= v@.len(),
            skip_ws(v@, lo as int) == skip_ws(v@, 0),
        decreases v.len() - lo,
    {
        lo = lo + 1;
    }
    let t = slice_chars(v, lo, v.len());
    let mut hi: usize = t.len();
    while hi > 0 && is_whitespace(t[hi - 1])
        invariant
            hi <= t@.len(),
            back_ws(t@, hi as int) == back_ws(t@, t@.len() as int),
        decreases hi,
    {
        hi = hi - 1;
    }
    slice_chars(&t, 0, hi)
}

/// Whether `p` occurs in `v` at position `i`.
pub fn occurs_at_exec(v: &Vec<char>, p: &Vec<char>, i: usize) -> (r: bool)
    ensures
        r == occurs_at(v@, p@, i as int),
{
    if p.len() > v.len() || i > v.len() - p.len() {
        return false;
    }
    let mut k: usize = 0;
    while k < p.len()
        invariant
            i <= v.len() - p.len(),
            p.len() <= v.len(),
            i + p@.len() <= v@.len(),
            k <= p@.len(),
            forall|j: int| 0 <= j < k ==> v@[i + j] == p@[j],
        decreases p.len() - k,
    {
        if v[i + k] != p[k] {
            assert(v@.subrange(i as int, i + p@.len())[k as int] != p@[k as int]);
            return false;
        }
        k = k + 1;
    }
    assert(v@.subrange(i as int, i + p@.len()) =~= p@);
    true
}

/// The first position where `p` occurs in `v`.
pub fn find_chars(v: &Vec<char>, p: &Vec<char>) -> (r: Option<usize>)
    ensures
        match r {
            Some(k) => find(v@, p@) == Some(k as int),
            None => find(v@, p@) is None,
        },
{
    if p.len() > v.len() {
        return None;
    }
    let last = v.len() - p.len();
    let mut i: usize = 0;
    loop
        invariant
            last + p@.len() == v@.len(),
            i <= last,
            find_from(v@, p@, i as int) == find(v@, p@),
        decreases last - i,
    {
        if occurs_at_exec(v, p, i) {
            return Some(i);
        }
        if i == last {
            assert(find_from(v@, p@, i + 1) is None);
            return None;
        }
        i = i + 1;
    }
}

/// The words of `v`: its maximal runs of characters that are not white space.
pub fn words_of(v: &Vec<char>) -> (r: Vec<Vec<char>>)
    ensures
        r@.map_values(|w: Vec<char>| w@) == words(v@),
{
    let mut out: Vec<Vec<char>> = Vec::new();
    let mut cur: Vec<char> = Vec::new();
    let mut i: usize = 0;
    assert(out@.map_values(|w: Vec<char>| w@) + words_from(v@, 0, cur@) =~= words(v@));
    while i < v.len()
        invariant
            i <= v@.len(),
            out@.map_values(|w: Vec<char>| w@) + words_from(v@, i as int, cur@) == words(v@),
        decreases v.len() - i,
    {
        let ghost before = out@.map_values(|w: Vec<char>| w@);
        if is_whitespace(v[i]) {
            if cur.len() > 0 {
                out.push(cur);
                assert(out@.map_values(|w: Vec<char>| w@) =~= before + seq![cur@]);
            } else {
                assert(words_from(v@, i as int, cur@) =~= words_from(v@, i + 1, Seq::empty()));
            }
            cur = Vec::new();
        } else {
            cur.push(v[i]);
        }
        i = i + 1;
    }
    if cur.len() > 0 {
        let ghost before = out@.map_values(|w: Vec<char>| w@);
        out.push(cur);
        assert(out@.map_values(|w: Vec<char>| w@) =~= before + seq![cur@]);
    } else {
        assert(out@.map_values(|w: Vec<char>| w@) + words_from(v@, i as int, cur@) =~= out@.map_values(|w: Vec<char>| w@));
    }
    out
}

/// Leading part of a number is at most its whole value.
proof fn lemma_digits_prefix(s: Seq<char>, k: int)
    requires
        0 <= k <= s.len(),
        all_digits(s),
    ensures
        0 <= digits_value(s.take(k)) <= digits_value(s),
    decreases s.len() - k,
{
    if k < s.len() {
        lemma_digits_prefix(s, k + 1);
        assert(s.take(k + 1).drop_last() =~= s.take(k));
        let a = digits_value(s.take(k));
        let d = digit_value(s[k]);
        assert(a <= a * 10 + d) by (nonlinear_arith)
            requires
                a >= 0,
                d >= 0,
        ;
    } else {
        assert(s.take(k) =~= s);
    }
    lemma_digits_nonneg(s.take(k));
}

proof fn lemma_digits_nonneg(s: Seq<char>)
    requires
        all_digits(s),
    ensures
        digits_value(s) >= 0,
    decreases s.len(),
{
    if s.len() > 0 {
        assert(all_digits(s.drop_last())) by {
            assert forall|i: int| 0 <= i < s.drop_last().len() implies is_digit(
                #[trigger] s.drop_last()[i],
            ) by {
                assert(s.drop_last()[i] == s[i]);
            }
        }
        lemma_digits_nonneg(s.drop_last());
        assert(is_digit(s[s.len() - 1]));
    }
}

/// The `i32` written in decimal in `v`, if any.
pub fn parse_i32_chars(v: &Vec<char>) -> (r: Option<i32>)
    ensures
        r == parse_i32(v@),
{
    let n = v.len();
    let neg = n > 0 && v[0] == '-';
    let signed = n > 0 && (v[0] == '-' || v[0] == '+');
    let start: usize = if signed {
        1
    } else {
        0
    };
    let ghost body = if signed {
        v@.drop_first()
    } else {
        v@
    };
    assert(body =~= v@.subrange(start as int, n as int));
    if start >= n {
        return None;
    }
    // Read the digits; stop once the magnitude exceeds 2^31.
    let mut value: u64 = 0;
    let mut i: usize = start;
    let limit: u64 = 0x8000_0000;
    while i < n
        invariant
            start <= i <= n,
            n == v@.len(),
            body == v@.subrange(start as int, n as int),
            limit == 0x8000_0000,
            value <= limit,
            signed == (v@.len() > 0 && (v@[0] == '-' || v@[0] == '+')),
            neg == (v@.len() > 0 && v@[0] == '-'),
            start == (if signed { 1usize } else { 0usize }),
            body == (if signed { v@.drop_first() } else { v@ }),
            all_digits(body.take(i - start)),
            value == digits_value(body.take(i - start)),
        decreases n - i,
    {
        let c = v[i];
        let code = #[verifier::truncate] (c as u32);
        if !(48 <= code && code <= 57) {
            assert(body[i - start] == c);
            assert(!is_digit(body[i - start]));
            assert(!all_digits(body));
            return None;
        }
        let d = (code - 48) as u64;
        let ghost k = i - start;
        assert(body.take(k + 1).drop_last() =~= body.take(k));
        assert(body.take(k + 1).last() == c);
        assert(all_digits(body.take(k + 1))) by {
            assert forall|j: int| 0 <= j < body.take(k + 1).len() implies is_digit(
                #[trigger] body.take(k + 1)[j],
            ) by {
                if j < k {
                    assert(body.take(k + 1)[j] == body.take(k)[j]);
                }
            }
        }
        let next = value * 10 + d;
        if next > limit {
            proof {
                if all_digits(body) {
                    lemma_digits_prefix(body, k + 1);
                }
            }
            return None;
        }
        value = next;
        i = i + 1;
    }
    assert(body.take(n - start) =~= body);
    let mag = value as i64;
    let signed_value: i64 = if neg {
        -mag
    } else {
        mag
    };
    if signed_value > 0x7fff_ffff {
        return None;
    }
    Some(signed_value as i32)
}

} // verus!
