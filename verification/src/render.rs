//! Writing queries in the query language, and the fact that reading what was
//! written gives the query back.
use vstd::prelude::*;
use crate::dataset::SpecValue;
use crate::query::{SpecAggregation, SpecCondition, SpecQuery};
use crate::query_parser::{
    and_op, average_word, closes_early, count_word, depth_step, eq_op, filter_prefix,
    group_by_marker, or_op, parse_condition, parse_query, parse_value, strip_outer_parens,
    sum_word, top_level_from,
};
use crate::text::{
    all_digits, digits_value, find, find_from, is_digit, is_ws, occurs_at, parse_i32, trim,
};

verus! {

// ---------------------------------------------------------------------------
// Parenthesis depth
// ---------------------------------------------------------------------------

/// The nesting depth after the first `k` characters of `p`.
pub open spec fn depth_at(p: Seq<char>, k: int) -> int
    decreases k,
{
    if k <= 0 {
        0
    } else {
        depth_step(p[k - 1], depth_at(p, k - 1))
    }
}

/// Every prefix closes no more parentheses than it opens, and the whole
/// closes all it opens.
pub open spec fn balanced(p: Seq<char>) -> bool {
    &&& depth_at(p, p.len() as int) == 0
    &&& forall|k: int| 0 <= k <= p.len() ==> #[trigger] depth_at(p, k) >= 0
}

/// No character is a parenthesis.
pub open spec fn paren_free(p: Seq<char>) -> bool {
    forall|j: int| 0 <= j < p.len() ==> #[trigger] p[j] != '(' && p[j] != ')'
}

proof fn lemma_paren_free_depth(p: Seq<char>, k: int)
    requires
        paren_free(p),
        0 <= k <= p.len(),
    ensures
        depth_at(p, k) == 0,
    decreases k,
{
    if k > 0 {
        lemma_paren_free_depth(p, k - 1);
        assert(p[k - 1] != '(' && p[k - 1] != ')');
    }
}

proof fn lemma_paren_free_balanced(p: Seq<char>)
    requires
        paren_free(p),
    ensures
        balanced(p),
{
    assert forall|k: int| 0 <= k <= p.len() implies #[trigger] depth_at(p, k) >= 0 by {
        lemma_paren_free_depth(p, k);
    }
    lemma_paren_free_depth(p, p.len() as int);
}

/// The depth in a concatenation: first within `p`, then `p`'s total plus the depth within `q`.
proof fn lemma_depth_concat(p: Seq<char>, q: Seq<char>, k: int)
    requires
        0 <= k <= p.len() + q.len(),
    ensures
        depth_at(p + q, k) == if k <= p.len() {
            depth_at(p, k)
        } else {
            depth_at(p, p.len() as int) + depth_at(q, k - p.len())
        },
    decreases k,
{
    if k > 0 {
        lemma_depth_concat(p, q, k - 1);
        if k <= p.len() {
            assert((p + q)[k - 1] == p[k - 1]);
        } else {
            assert((p + q)[k - 1] == q[k - 1 - p.len()]);
            assert(depth_at(q, 0) == 0);
            assert(depth_at(q, k - p.len()) == depth_step(q[k - 1 - p.len()], depth_at(q, k - 1 - p.len())));
        }
    }
}

proof fn lemma_balanced_concat(p: Seq<char>, q: Seq<char>)
    requires
        balanced(p),
        balanced(q),
    ensures
        balanced(p + q),
{
    assert forall|k: int| 0 <= k <= (p + q).len() implies #[trigger] depth_at(p + q, k) >= 0 by {
        lemma_depth_concat(p, q, k);
        if k > p.len() {
            assert(depth_at(q, k - p.len()) >= 0);
        } else {
            assert(depth_at(p, k) >= 0);
        }
    }
    lemma_depth_concat(p, q, (p + q).len() as int);
}

/// `p` between a pair of parentheses.
pub open spec fn wrap(p: Seq<char>) -> Seq<char> {
    seq!['('] + p + seq![')']
}

proof fn lemma_wrap_depth(p: Seq<char>, k: int)
    requires
        balanced(p),
        1 <= k <= p.len() + 1,
    ensures
        depth_at(wrap(p), k) == 1 + depth_at(p, k - 1),
{
    lemma_depth_concat(seq!['('] + p, seq![')'], k);
    lemma_depth_concat(seq!['('], p, k);
    assert(depth_at(seq!['('], 1) == 1) by {
        assert(depth_at(seq!['('], 0) == 0);
    }
}

proof fn lemma_wrap_balanced(p: Seq<char>)
    requires
        balanced(p),
    ensures
        balanced(wrap(p)),
        depth_at(wrap(p), wrap(p).len() - 1) == 1,
{
    let w = wrap(p);
    assert forall|k: int| 0 <= k <= w.len() implies #[trigger] depth_at(w, k) >= 0 by {
        if 1 <= k <= p.len() + 1 {
            lemma_wrap_depth(p, k);
            assert(depth_at(p, k - 1) >= 0);
        } else if k == p.len() + 2 {
            lemma_wrap_depth(p, k - 1);
            assert(depth_at(p, p.len() as int) == 0);
            assert(w[k - 1] == ')');
        }
    }
    lemma_wrap_depth(p, p.len() as int + 1);
    assert(w[w.len() - 1] == ')');
}

// ---------------------------------------------------------------------------
// Walking over a balanced stretch
// ---------------------------------------------------------------------------

/// `p` stands in `s` from position `a` on.
pub open spec fn stands_at(s: Seq<char>, a: int, p: Seq<char>) -> bool {
    0 <= a && a + p.len() <= s.len() && forall|j: int| 0 <= j < p.len() ==> s[a + j] == #[trigger] p[j]
}

/// Inside parentheses no operator is at the top level: the search skips a balanced stretch.
proof fn lemma_walk_top(s: Seq<char>, op: Seq<char>, a: int, d: int, p: Seq<char>, m: int)
    requires
        balanced(p),
        d >= 1,
        stands_at(s, a, p),
        0 <= m <= p.len(),
    ensures
        top_level_from(s, op, a + m, d + depth_at(p, m)) == top_level_from(s, op, a + p.len(), d),
    decreases p.len() - m,
{
    if m < p.len() {
        assert(s[a + m] == p[m]);
        assert(depth_at(p, m + 1) >= 0);
        assert(depth_step(p[m], d + depth_at(p, m)) == d + depth_at(p, m + 1));
        lemma_walk_top(s, op, a, d, p, m + 1);
    }
}

/// Inside parentheses no `)` closes the outermost pair.
proof fn lemma_walk_close(s: Seq<char>, a: int, d: int, p: Seq<char>, m: int)
    requires
        balanced(p),
        d >= 1,
        stands_at(s, a, p),
        0 <= m <= p.len(),
    ensures
        closes_early(s, a + m, d + depth_at(p, m)) == closes_early(s, a + p.len(), d),
    decreases p.len() - m,
{
    if m < p.len() {
        assert(s[a + m] == p[m]);
        assert(depth_at(p, m + 1) >= 0);
        assert(depth_step(p[m], d + depth_at(p, m)) == d + depth_at(p, m + 1));
        lemma_walk_close(s, a, d, p, m + 1);
    }
}


// ---------------------------------------------------------------------------
// Searching
// ---------------------------------------------------------------------------

/// Where `p` does not occur from `i` on, it is not found.
proof fn lemma_find_none(s: Seq<char>, p: Seq<char>, i: int)
    requires
        forall|j: int| i <= j ==> !#[trigger] occurs_at(s, p, j),
    ensures
        find_from(s, p, i) is None,
    decreases s.len() + 1 - i,
{
    if !(i < 0 || i + p.len() > s.len()) {
        assert(!occurs_at(s, p, i));
        lemma_find_none(s, p, i + 1);
    }
}

/// The first occurrence from `i` on is found.
proof fn lemma_find_first(s: Seq<char>, p: Seq<char>, i: int, k: int)
    requires
        0 <= i <= k,
        occurs_at(s, p, k),
        forall|j: int| i <= j < k ==> !#[trigger] occurs_at(s, p, j),
    ensures
        find_from(s, p, i) == Some(k),
    decreases k - i,
{
    if i < k {
        assert(!occurs_at(s, p, i));
        lemma_find_first(s, p, i + 1, k);
    }
}

/// Without parentheses every position is at the top level.
proof fn lemma_top_paren_free(s: Seq<char>, op: Seq<char>, i: int)
    requires
        paren_free(s),
        op.len() > 0,
    ensures
        top_level_from(s, op, i, 0) == find_from(s, op, i),
    decreases s.len() + 1 - i,
{
    if !(i < 0 || i + op.len() > s.len()) {
        assert(s[i] != '(' && s[i] != ')');
        lemma_top_paren_free(s, op, i + 1);
    }
}

/// A string that starts and ends with something other than white space is its own trim.
proof fn lemma_trim_noop(s: Seq<char>)
    requires
        s.len() > 0,
        !is_ws(s[0]),
        !is_ws(s[s.len() - 1]),
    ensures
        trim(s) == s,
{
    assert(crate::text::skip_ws(s, 0) == 0);
    assert(crate::text::trim_start(s) =~= s);
    assert(crate::text::back_ws(s, s.len() as int) == s.len());
    assert(crate::text::trim_end(s) =~= s);
}

// ---------------------------------------------------------------------------
// Numbers
// ---------------------------------------------------------------------------

/// The character of a decimal digit.
pub open spec fn digit_char(d: int) -> char {
    if d == 0 {
        '0'
    } else if d == 1 {
        '1'
    } else if d == 2 {
        '2'
    } else if d == 3 {
        '3'
    } else if d == 4 {
        '4'
    } else if d == 5 {
        '5'
    } else if d == 6 {
        '6'
    } else if d == 7 {
        '7'
    } else if d == 8 {
        '8'
    } else {
        '9'
    }
}

/// The decimal digits of `n`, most significant first.
pub open spec fn decimal(n: nat) -> Seq<char>
    decreases n,
{
    if n < 10 {
        seq![digit_char(n as int)]
    } else {
        decimal(n / 10).push(digit_char((n % 10) as int))
    }
}

/// An `i32` in decimal, with a minus sign when it is negative.
pub open spec fn render_int(i: i32) -> Seq<char> {
    if i < 0 {
        seq!['-'] + decimal((-(i as int)) as nat)
    } else {
        decimal(i as nat)
    }
}

proof fn lemma_decimal(n: nat)
    ensures
        decimal(n).len() >= 1,
        all_digits(decimal(n)),
        digits_value(decimal(n)) == n,
    decreases n,
{
    let d = decimal(n);
    assert(is_digit(digit_char((n % 10) as int)));
    assert(crate::text::digit_value(digit_char((n % 10) as int)) == n % 10);
    if n >= 10 {
        lemma_decimal(n / 10);
        assert(d.drop_last() =~= decimal(n / 10));
        assert(d.last() == digit_char((n % 10) as int));
    } else {
        assert(d.drop_last() =~= Seq::<char>::empty());
        assert(d.last() == digit_char(n as int));
        assert(n % 10 == n);
    }
    assert(digits_value(d) == digits_value(d.drop_last()) * 10 + crate::text::digit_value(d.last()));
}

/// Reading an `i32` written in decimal gives it back.
pub proof fn lemma_int_round_trip(i: i32)
    ensures
        parse_i32(render_int(i)) == Some(i),
        render_int(i).len() >= 1,
        render_int(i)[0] == '-' || is_digit(render_int(i)[0]),
        forall|j: int| 0 <= j < render_int(i).len() ==> {
            let c = #[trigger] render_int(i)[j];
            &&& !is_ws(c)
            &&& c != '(' && c != ')' && c != '"' && c != '='
        },
{
    if i < 0 {
        let m = (-(i as int)) as nat;
        lemma_decimal(m);
        let s = render_int(i);
        assert(s.drop_first() =~= decimal(m));
        assert(is_digit(decimal(m)[0]));
        assert forall|j: int| 0 <= j < s.len() implies {
            let c = #[trigger] s[j];
            &&& !is_ws(c)
            &&& c != '(' && c != ')' && c != '"' && c != '='
        } by {
            if j > 0 {
                assert(s[j] == decimal(m)[j - 1]);
                assert(is_digit(decimal(m)[j - 1]));
            }
        }
    } else {
        let s = render_int(i);
        lemma_decimal(i as nat);
        assert(is_digit(s[0]));
        assert forall|j: int| 0 <= j < s.len() implies {
            let c = #[trigger] s[j];
            &&& !is_ws(c)
            &&& c != '(' && c != ')' && c != '"' && c != '='
        } by {
            assert(is_digit(s[j]));
        }
    }
}


// ---------------------------------------------------------------------------
// Writing conditions
// ---------------------------------------------------------------------------

/// A character a column name may hold.
pub open spec fn name_char(c: char) -> bool {
    !is_ws(c) && c != '(' && c != ')' && c != '=' && c != '"'
}

/// A column name that the language can write: nonempty, without white
/// space, parentheses, `=` or double quotes.
pub open spec fn plain_name(n: Seq<char>) -> bool {
    n.len() > 0 && forall|j: int| 0 <= j < n.len() ==> name_char(#[trigger] n[j])
}

/// Text that the language can write between double quotes: without
/// parentheses or double quotes, and in which neither ` AND `, ` OR ` nor
/// ` GROUP BY ` occurs. It may hold white space.
pub open spec fn plain_text(t: Seq<char>) -> bool {
    &&& forall|j: int| 0 <= j < t.len() ==> #[trigger] t[j] != '(' && t[j] != ')' && t[j] != '"'
    &&& forall|j: int| !#[trigger] occurs_at(t, or_op(), j)
    &&& forall|j: int| !#[trigger] occurs_at(t, and_op(), j)
    &&& marker_free(t)
}

/// ` GROUP BY ` does not occur in `s`.
pub open spec fn marker_free(s: Seq<char>) -> bool {
    forall|j: int| !#[trigger] occurs_at(s, group_by_marker(), j)
}

/// An occurrence within a stretch is an occurrence in the stretch.
proof fn lemma_occurs_shift(s: Seq<char>, a: int, t: Seq<char>, p: Seq<char>, j: int)
    requires
        stands_at(s, a, t),
        a <= j,
        j + p.len() <= a + t.len(),
        occurs_at(s, p, j),
    ensures
        occurs_at(t, p, j - a),
{
    assert forall|x: int| 0 <= x < p.len() implies t.subrange(j - a, j - a + p.len())[x] == p[x] by {
        lemma_occurrence_char(s, p, j, x);
        assert(s[a + (j - a + x)] == t[j - a + x]);
    }
    assert(t.subrange(j - a, j - a + p.len()) =~= p);
}

/// No occurrence holds a character that its pattern lacks.
proof fn lemma_occurrence_excludes(s: Seq<char>, p: Seq<char>, j: int, k: int, c: char)
    requires
        j <= k < j + p.len(),
        0 <= k < s.len(),
        s[k] == c,
        forall|x: int| 0 <= x < p.len() ==> #[trigger] p[x] != c,
    ensures
        !occurs_at(s, p, j),
{
    if occurs_at(s, p, j) {
        lemma_occurrence_char(s, p, j, k - j);
    }
}

/// A value as the language writes it: an `i32` in decimal, or text in double quotes.
pub open spec fn render_value(v: SpecValue) -> Seq<char> {
    match v {
        SpecValue::Integer(i) => render_int(i),
        SpecValue::Text(t) => seq!['"'] + t + seq!['"'],
    }
}

/// The condition can be written: its names and texts are plain.
pub open spec fn writable(c: SpecCondition) -> bool
    decreases c,
{
    match c {
        SpecCondition::Equal(n, v) => plain_name(n) && match v {
            SpecValue::Integer(_) => true,
            SpecValue::Text(t) => plain_text(t),
        },
        SpecCondition::Not(x) => writable(*x),
        SpecCondition::And(x, y) => writable(*x) && writable(*y),
        SpecCondition::Or(x, y) => writable(*x) && writable(*y),
    }
}

/// The condition written out with every operand of `AND` and `OR` in
/// parentheses: `name == value`, `!(c)`, `(c) AND (d)`, `(c) OR (d)`.
pub open spec fn render_condition(c: SpecCondition) -> Seq<char>
    decreases c,
{
    match c {
        SpecCondition::Equal(n, v) => n + seq![' ', '=', '=', ' '] + render_value(v),
        SpecCondition::Not(x) => seq!['!'] + wrap(render_condition(*x)),
        SpecCondition::And(x, y) => wrap(render_condition(*x)) + and_op() + wrap(
            render_condition(*y),
        ),
        SpecCondition::Or(x, y) => wrap(render_condition(*x)) + or_op() + wrap(render_condition(*y)),
    }
}

/// A written value: an integer is digits after an optional minus sign; text
/// stands between double quotes; neither holds a parenthesis, both start and
/// end with something other than white space, and the value reads back.
proof fn lemma_value_chars(v: SpecValue)
    requires
        v matches SpecValue::Text(t) ==> plain_text(t),
    ensures
        render_value(v).len() >= 1,
        paren_free(render_value(v)),
        !is_ws(render_value(v)[0]),
        !is_ws(render_value(v)[render_value(v).len() - 1]),
        render_value(v)[render_value(v).len() - 1] != 'P',
        render_value(v)[render_value(v).len() - 1] != 'Y',
        parse_value(render_value(v)) == Some(v),
        match v {
            SpecValue::Integer(_) => forall|j: int|
                0 <= j < render_value(v).len() ==> #[trigger] render_value(v)[j] == '-' || is_digit(
                    render_value(v)[j],
                ),
            SpecValue::Text(t) => {
                &&& render_value(v).len() == t.len() + 2
                &&& render_value(v)[0] == '"'
                &&& render_value(v)[render_value(v).len() - 1] == '"'
                &&& stands_at(render_value(v), 1, t)
            },
        },
{
    let r = render_value(v);
    match v {
        SpecValue::Integer(i) => {
            lemma_int_round_trip(i);
            lemma_decimal_chars(i);
            assert(!is_ws(r[0]) && r[0] != '"');
            assert(!is_ws(r[r.len() - 1]));
            lemma_trim_noop(r);
        },
        SpecValue::Text(t) => {
            assert(r[0] == '"');
            assert(r[r.len() - 1] == '"');
            assert forall|j: int| 0 <= j < r.len() implies #[trigger] r[j] != '(' && r[j] != ')' by {
                if 0 < j < r.len() - 1 {
                    assert(r[j] == t[j - 1]);
                }
            }
            assert(stands_at(r, 1, t)) by {
                assert forall|j: int| 0 <= j < t.len() implies r[1 + j] == #[trigger] t[j] by {}
            }
            lemma_trim_noop(r);
            assert(r.subrange(1, r.len() - 1) =~= t);
        },
    }
}

/// An integer is written as digits after an optional minus sign.
proof fn lemma_decimal_chars(i: i32)
    ensures
        forall|j: int| 0 <= j < render_int(i).len() ==> #[trigger] render_int(i)[j] == '-' || is_digit(
            render_int(i)[j],
        ),
        is_digit(render_int(i)[render_int(i).len() - 1]),
{
    let s = render_int(i);
    if i < 0 {
        let m = (-(i as int)) as nat;
        lemma_decimal(m);
        assert forall|j: int| 0 <= j < s.len() implies #[trigger] s[j] == '-' || is_digit(s[j]) by {
            if j > 0 {
                assert(s[j] == decimal(m)[j - 1]);
            }
        }
        assert(s[s.len() - 1] == decimal(m)[decimal(m).len() - 1]);
    } else {
        lemma_decimal(i as nat);
    }
}

/// A word that starts with a space followed by a letter, and holds no double
/// quote, occurs in a written `name == value` only where it occurs in the text.
proof fn lemma_equal_no_word(n: Seq<char>, v: SpecValue, p: Seq<char>)
    requires
        plain_name(n),
        v matches SpecValue::Text(t) ==> plain_text(t),
        v matches SpecValue::Text(t) ==> forall|j: int| !#[trigger] occurs_at(t, p, j),
        p.len() >= 2,
        p[0] == ' ',
        p[1] != '=' && p[1] != '"' && p[1] != '-' && !is_digit(p[1]),
        forall|x: int| 0 <= x < p.len() ==> #[trigger] p[x] != '"',
    ensures
        forall|j: int| !#[trigger] occurs_at(render_condition(SpecCondition::Equal(n, v)), p, j),
{
    let e = render_condition(SpecCondition::Equal(n, v));
    let rv = render_value(v);
    let l = n.len() as int;
    lemma_value_chars(v);
    assert(e == n + seq![' ', '=', '=', ' '] + rv);
    assert(is_ws(' '));
    assert forall|j: int| !#[trigger] occurs_at(e, p, j) by {
        if occurs_at(e, p, j) {
            lemma_occurrence_char(e, p, j, 0);
            lemma_occurrence_char(e, p, j, 1);
            if j < l {
                assert(e[j] == n[j]);
                assert(name_char(n[j]));
            } else if j == l {
                assert(e[l + 1] == '=');
            } else if j < l + 3 {
                assert(e[j] == '=');
            } else if j == l + 3 {
                assert(e[l + 4] == rv[0]);
            } else {
                assert(e[j] == rv[j - l - 4]);
                match v {
                    SpecValue::Integer(_) => {
                        assert(rv[j - l - 4] == '-' || is_digit(rv[j - l - 4]));
                    },
                    SpecValue::Text(t) => {
                        let end = l + 4 + rv.len() - 1;
                        if j == l + 4 || j == end {
                        } else if j + p.len() <= end {
                            assert(stands_at(e, l + 5, t)) by {
                                assert forall|x: int| 0 <= x < t.len() implies e[l + 5 + x]
                                    == #[trigger] t[x] by {
                                    assert(e[l + 5 + x] == rv[1 + x]);
                                }
                            }
                            lemma_occurs_shift(e, l + 5, t, p, j);
                        } else {
                            assert(e[end] == rv[rv.len() - 1]);
                            lemma_occurrence_excludes(e, p, j, end, '"');
                        }
                    },
                }
            }
        }
    }
}

/// The written form of `name == value`: no parentheses, no operator and no
/// ` GROUP BY `, and it reads back as the same condition.
proof fn lemma_equal_round_trip(n: Seq<char>, v: SpecValue)
    requires
        plain_name(n),
        v matches SpecValue::Text(t) ==> plain_text(t),
    ensures
        ({
            let e = render_condition(SpecCondition::Equal(n, v));
            &&& e.len() >= 2
            &&& paren_free(e)
            &&& !is_ws(e[0])
            &&& !is_ws(e[e.len() - 1])
            &&& e[0] != '('
            &&& strip_outer_parens(e) == e
            &&& parse_condition(e) == Some(SpecCondition::Equal(n, v))
            &&& marker_free(e)
            &&& starts_well(e)
            &&& e[e.len() - 1] != 'P' && e[e.len() - 1] != 'Y'
        }),
{
    let e = render_condition(SpecCondition::Equal(n, v));
    let rv = render_value(v);
    let l = n.len() as int;
    lemma_value_chars(v);
    assert(e == n + seq![' ', '=', '=', ' '] + rv);
    assert(is_ws(' '));
    assert forall|j: int| 0 <= j < e.len() implies {
        &&& (#[trigger] e[j]) != '(' && e[j] != ')'
        &&& j <= l ==> (e[j] == '=' ==> false)
    } by {
        if j < l {
            assert(e[j] == n[j]);
            assert(name_char(n[j]));
        } else if j >= l + 4 {
            assert(e[j] == rv[j - l - 4]);
        }
    }
    assert(e[l] == ' ' && e[l + 1] == '=' && e[l + 2] == '=' && e[l + 3] == ' ');
    assert(paren_free(e));
    assert(name_char(n[0]));
    assert(e[0] == n[0]);
    assert(e[e.len() - 1] == rv[rv.len() - 1]);
    lemma_trim_noop(e);
    assert(strip_outer_parens(e) == e);
    if l > 1 {
        assert(e[1] == n[1]);
        assert(name_char(n[1]));
    }
    // no operator occurs
    lemma_equal_no_word(n, v, or_op());
    lemma_equal_no_word(n, v, and_op());
    lemma_equal_no_word(n, v, group_by_marker());
    lemma_top_paren_free(e, or_op(), 0);
    lemma_find_none(e, or_op(), 0);
    lemma_top_paren_free(e, and_op(), 0);
    lemma_find_none(e, and_op(), 0);
    // it does not start like the rest of ` GROUP BY `
    if e.len() >= 9 && e.subrange(0, 9) == group_by_marker().subrange(1, 10) {
        assert(e.subrange(0, 9)[5] == e[5] && e.subrange(0, 9)[6] == e[6] && e.subrange(0, 9)[2] == e[2]);
        if l > 5 {
            assert(e[5] == n[5]);
            assert(name_char(n[5]));
        } else if l < 5 && l != 2 {
            assert(e.subrange(0, 9)[l] == e[l]);
        }
    }
    // the comparison
    assert forall|j: int| 0 <= j < l + 1 implies !#[trigger] occurs_at(e, eq_op(), j) by {
        if occurs_at(e, eq_op(), j) {
            assert(e.subrange(j, j + 2)[0] == e[j]);
        }
    }
    assert(e.subrange(l + 1, l + 3) =~= eq_op());
    lemma_find_first(e, eq_op(), 0, l + 1);
    // the column
    assert(Seq::<char>::empty() + n + seq![' '] =~= e.subrange(0, l + 1));
    crate::text::lemma_trim_surrounding(Seq::<char>::empty(), n, seq![' ']);
    assert(n[n.len() - 1] == e[l - 1]);
    lemma_trim_noop(n);
    // the value
    assert(seq![' '] + rv + Seq::<char>::empty() =~= e.subrange(l + 3, e.len() as int));
    crate::text::lemma_trim_surrounding(seq![' '], rv, Seq::<char>::empty());
    lemma_trim_noop(rv);
    assert(parse_value(e.subrange(l + 3, e.len() as int)) == parse_value(rv));
}

/// A balanced stretch between parentheses reads as the stretch itself.
proof fn lemma_wrap_parse(p: Seq<char>)
    requires
        balanced(p),
        p.len() >= 1,
        strip_outer_parens(p) == p,
    ensures
        strip_outer_parens(wrap(p)) == p,
        parse_condition(wrap(p)) == parse_condition(p),
{
    let w = wrap(p);
    assert(w[0] == '(' && w[w.len() - 1] == ')');
    lemma_trim_noop(w);
    assert(stands_at(w, 1, p)) by {
        assert forall|j: int| 0 <= j < p.len() implies w[1 + j] == #[trigger] p[j] by {}
    }
    assert(depth_at(p, 0) == 0);
    lemma_walk_close(w, 1, 1, p, 0);
    assert(!closes_early(w, w.len() as int, 0));
    assert(!closes_early(w, 0, 0));
    assert(w.subrange(1, w.len() - 1) =~= p);
    assert(strip_outer_parens(w) == p);
}

/// Two written conditions joined by an operator, each in parentheses.
proof fn lemma_joined(p: Seq<char>, op: Seq<char>, q: Seq<char>)
    requires
        balanced(p),
        balanced(q),
        p.len() >= 1,
        q.len() >= 1,
        op.len() >= 2,
        op[0] == ' ',
        op[op.len() - 1] == ' ',
        paren_free(op),
    ensures
        ({
            let r = wrap(p) + op + wrap(q);
            let k = p.len() as int + 1;
            &&& balanced(r)
            &&& r[0] == '('
            &&& r[r.len() - 1] == ')'
            &&& strip_outer_parens(r) == r
            &&& r.subrange(0, k + 1) == wrap(p)
            &&& r.subrange(k + 1 + op.len(), r.len() as int) == wrap(q)
            &&& stands_at(r, k + 1, op)
            &&& forall|o: Seq<char>| #[trigger] top_level_from(r, o, 0, 0) == top_level_from(r, o, k, 1)
            &&& forall|o: Seq<char>| #![trigger top_level_from(r, o, k + 2 + op.len(), 1)] o.len() >= 2 ==> top_level_from(r, o, k + 2 + op.len(), 1) == None::<int>
            &&& r[k] == ')'
            &&& r[k + 1 + op.len()] == '('
        }),
{
    let r = wrap(p) + op + wrap(q);
    let k = p.len() as int + 1;
    lemma_wrap_balanced(p);
    lemma_wrap_balanced(q);
    lemma_paren_free_balanced(op);
    lemma_balanced_concat(wrap(p), op);
    lemma_balanced_concat(wrap(p) + op, wrap(q));
    assert(r[0] == '(');
    assert(r[r.len() - 1] == ')');
    assert(r[k] == ')');
    assert(r[k + 1 + op.len()] == '(');
    assert(r.subrange(0, k + 1) =~= wrap(p));
    assert(r.subrange(k + 1 + op.len(), r.len() as int) =~= wrap(q));
    assert(stands_at(r, k + 1, op)) by {
        assert forall|j: int| 0 <= j < op.len() implies r[k + 1 + j] == #[trigger] op[j] by {}
    }
    assert(stands_at(r, 1, p)) by {
        assert forall|j: int| 0 <= j < p.len() implies r[1 + j] == #[trigger] p[j] by {}
    }
    let qs = k + 2 + op.len();
    assert(stands_at(r, qs, q)) by {
        assert forall|j: int| 0 <= j < q.len() implies r[qs + j] == #[trigger] q[j] by {}
    }
    assert(depth_at(p, 0) == 0);
    assert(depth_at(q, 0) == 0);
    // the first `)` closes the outer pair early
    lemma_walk_close(r, 1, 1, p, 0);
    assert(closes_early(r, k, 1));
    assert(closes_early(r, 0, 0));
    lemma_trim_noop(r);
    assert forall|o: Seq<char>| #[trigger] top_level_from(r, o, 0, 0) == top_level_from(r, o, k, 1) by {
        lemma_walk_top(r, o, 1, 1, p, 0);
    }
    assert forall|o: Seq<char>| #![trigger top_level_from(r, o, k + 2 + op.len(), 1)] o.len() >= 2 implies top_level_from(r, o, k + 2 + op.len(), 1) == None::<int> by {
        lemma_walk_top(r, o, qs, 1, q, 0);
        assert(qs + q.len() + o.len() > r.len());
    }
}


/// `s` does not start like ` GROUP BY ` without its first space.
pub open spec fn starts_well(s: Seq<char>) -> bool {
    !(s.len() >= 9 && s.subrange(0, 9) == group_by_marker().subrange(1, 10))
}

/// What a written operand brings to the conditions around it.
pub open spec fn reads_back(p: Seq<char>, c: SpecCondition) -> bool {
    &&& p.len() >= 2
    &&& balanced(p)
    &&& !is_ws(p[0])
    &&& !is_ws(p[p.len() - 1])
    &&& strip_outer_parens(p) == p
    &&& parse_condition(p) == Some(c)
    &&& marker_free(p)
    &&& starts_well(p)
    &&& p[p.len() - 1] != 'P' && p[p.len() - 1] != 'Y'
}

/// A string that starts with a character ` GROUP BY ` lacks after its first space.
proof fn lemma_starts_well(s: Seq<char>)
    requires
        s.len() >= 1,
        s[0] != 'G',
    ensures
        starts_well(s),
{
    if s.len() >= 9 && s.subrange(0, 9) == group_by_marker().subrange(1, 10) {
        assert(s.subrange(0, 9)[0] == s[0]);
    }
}

/// ` GROUP BY ` holds no parenthesis and no `!`.
proof fn lemma_marker_chars()
    ensures
        forall|x: int| 0 <= x < group_by_marker().len() ==> #[trigger] group_by_marker()[x] != '('
            && group_by_marker()[x] != ')' && group_by_marker()[x] != '!',
{
}

proof fn lemma_not_case(p: Seq<char>, x: SpecCondition)
    requires
        reads_back(p, x),
    ensures
        reads_back(seq!['!'] + wrap(p), SpecCondition::Not(Box::new(x))),
{
    let r = seq!['!'] + wrap(p);
    let m = group_by_marker();
    lemma_wrap_balanced(p);
    lemma_paren_free_balanced(seq!['!']);
    lemma_balanced_concat(seq!['!'], wrap(p));
    assert(r[0] == '!' && r[1] == '(' && r[r.len() - 1] == ')');
    lemma_trim_noop(r);
    assert(strip_outer_parens(r) == r);
    assert(r.subrange(2, r.len() - 1) =~= p);
    lemma_starts_well(r);
    lemma_marker_chars();
    assert(stands_at(r, 2, p)) by {
        assert forall|x: int| 0 <= x < p.len() implies r[2 + x] == #[trigger] p[x] by {}
    }
    assert forall|j: int| !#[trigger] occurs_at(r, m, j) by {
        if occurs_at(r, m, j) {
            if j <= 1 {
                lemma_occurrence_excludes(r, m, j, 1, '(');
            } else if j + 10 <= r.len() - 1 {
                lemma_occurs_shift(r, 2, p, m, j);
            } else {
                lemma_occurrence_excludes(r, m, j, r.len() - 1, ')');
            }
        }
    }
}

/// Two operands, free of ` GROUP BY `, in parentheses and joined by a short operator.
proof fn lemma_joined_marker(p: Seq<char>, op: Seq<char>, q: Seq<char>)
    requires
        marker_free(p),
        marker_free(q),
        p.len() >= 1,
        q.len() >= 1,
        1 <= op.len() < 10,
    ensures
        marker_free(wrap(p) + op + wrap(q)),
{
    let r = wrap(p) + op + wrap(q);
    let m = group_by_marker();
    let k = p.len() as int + 1;
    let o = k + 1 + op.len();
    lemma_marker_chars();
    assert(r[0] == '(' && r[k] == ')' && r[o] == '(' && r[r.len() - 1] == ')');
    assert(stands_at(r, 1, p)) by {
        assert forall|x: int| 0 <= x < p.len() implies r[1 + x] == #[trigger] p[x] by {}
    }
    assert(stands_at(r, o + 1, q)) by {
        assert forall|x: int| 0 <= x < q.len() implies r[o + 1 + x] == #[trigger] q[x] by {}
    }
    assert forall|j: int| !#[trigger] occurs_at(r, m, j) by {
        if occurs_at(r, m, j) {
            if j == 0 {
                lemma_occurrence_excludes(r, m, j, 0, '(');
            } else if j + 10 <= k {
                lemma_occurs_shift(r, 1, p, m, j);
            } else if j <= k {
                lemma_occurrence_excludes(r, m, j, k, ')');
            } else if j <= o {
                lemma_occurrence_excludes(r, m, j, o, '(');
            } else if j + 10 <= r.len() - 1 {
                lemma_occurs_shift(r, o + 1, q, m, j);
            } else {
                lemma_occurrence_excludes(r, m, j, r.len() - 1, ')');
            }
        }
    }
}

proof fn lemma_or_case(p: Seq<char>, q: Seq<char>, x: SpecCondition, y: SpecCondition)
    requires
        reads_back(p, x),
        reads_back(q, y),
    ensures
        reads_back(wrap(p) + or_op() + wrap(q), SpecCondition::Or(Box::new(x), Box::new(y))),
{
    let r = wrap(p) + or_op() + wrap(q);
    let k = p.len() as int + 1;
    lemma_joined(p, or_op(), q);
    lemma_wrap_parse(p);
    lemma_wrap_parse(q);
    assert(!occurs_at(r, or_op(), k)) by {
        assert(r.subrange(k, k + 4)[0] == r[k]);
    }
    assert(r.subrange(k + 1, k + 5) =~= or_op());
    assert(top_level_from(r, or_op(), k + 1, 0) == Some(k + 1));
    assert(top_level_from(r, or_op(), k, 1) == Some(k + 1));
    lemma_trim_noop(r);
    lemma_joined_marker(p, or_op(), q);
    lemma_starts_well(r);
}

/// In `(p) AND (q)` no `OR` stands at the top level.
proof fn lemma_and_no_or(p: Seq<char>, q: Seq<char>)
    requires
        balanced(p),
        balanced(q),
        p.len() >= 1,
        q.len() >= 1,
    ensures
        crate::query_parser::find_top_level(wrap(p) + and_op() + wrap(q), or_op()) == None::<int>,
{
    let r = wrap(p) + and_op() + wrap(q);
    let k = p.len() as int + 1;
    let o = or_op();
    lemma_joined(p, and_op(), q);
    assert(r[k + 1] == ' ' && r[k + 2] == 'A' && r[k + 3] == 'N' && r[k + 4] == 'D' && r[k + 5] == ' ');
    assert(!occurs_at(r, o, k)) by {
        assert(r.subrange(k, k + 4)[0] == r[k]);
    }
    assert(!occurs_at(r, o, k + 1)) by {
        assert(r.subrange(k + 1, k + 5)[1] == r[k + 2]);
    }
    assert(!occurs_at(r, o, k + 2)) by {
        assert(r.subrange(k + 2, k + 6)[0] == r[k + 2]);
    }
    assert(!occurs_at(r, o, k + 3)) by {
        assert(r.subrange(k + 3, k + 7)[0] == r[k + 3]);
    }
    assert(!occurs_at(r, o, k + 4)) by {
        assert(r.subrange(k + 4, k + 8)[0] == r[k + 4]);
    }
    assert(!occurs_at(r, o, k + 5)) by {
        if k + 9 <= r.len() {
            assert(r.subrange(k + 5, k + 9)[1] == r[k + 6]);
        }
    }
    assert(top_level_from(r, o, k + 7, 1) == None::<int>);
    assert(top_level_from(r, o, k + 6, 0) == None::<int>);
    assert(top_level_from(r, o, k + 5, 0) == None::<int>);
    assert(top_level_from(r, o, k + 4, 0) == None::<int>);
    assert(top_level_from(r, o, k + 3, 0) == None::<int>);
    assert(top_level_from(r, o, k + 2, 0) == None::<int>);
    assert(top_level_from(r, o, k + 1, 0) == None::<int>);
    assert(top_level_from(r, o, k, 1) == None::<int>);
}

proof fn lemma_and_case(p: Seq<char>, q: Seq<char>, x: SpecCondition, y: SpecCondition)
    requires
        reads_back(p, x),
        reads_back(q, y),
    ensures
        reads_back(wrap(p) + and_op() + wrap(q), SpecCondition::And(Box::new(x), Box::new(y))),
{
    let r = wrap(p) + and_op() + wrap(q);
    let k = p.len() as int + 1;
    lemma_joined(p, and_op(), q);
    lemma_and_no_or(p, q);
    lemma_wrap_parse(p);
    lemma_wrap_parse(q);
    assert(!occurs_at(r, and_op(), k)) by {
        assert(r.subrange(k, k + 5)[0] == r[k]);
    }
    assert(r.subrange(k + 1, k + 6) =~= and_op());
    assert(top_level_from(r, and_op(), k + 1, 0) == Some(k + 1));
    assert(top_level_from(r, and_op(), k, 1) == Some(k + 1));
    lemma_trim_noop(r);
    lemma_joined_marker(p, and_op(), q);
    lemma_starts_well(r);
}

/// A condition written with its operands in parentheses reads back as the
/// same condition.
pub proof fn lemma_condition_round_trip(c: SpecCondition)
    requires
        writable(c),
    ensures
        reads_back(render_condition(c), c),
    decreases c,
{
    let r = render_condition(c);
    match c {
        SpecCondition::Equal(n, v) => {
            lemma_equal_round_trip(n, v);
            lemma_paren_free_balanced(r);
        },
        SpecCondition::Not(x) => {
            lemma_condition_round_trip(*x);
            lemma_not_case(render_condition(*x), *x);
        },
        SpecCondition::Or(x, y) => {
            lemma_condition_round_trip(*x);
            lemma_condition_round_trip(*y);
            lemma_or_case(render_condition(*x), render_condition(*y), *x, *y);
        },
        SpecCondition::And(x, y) => {
            lemma_condition_round_trip(*x);
            lemma_condition_round_trip(*y);
            lemma_and_case(render_condition(*x), render_condition(*y), *x, *y);
        },
    }
}


// ---------------------------------------------------------------------------
// Writing queries
// ---------------------------------------------------------------------------

/// The word that names an aggregation.
pub open spec fn aggregation_word(a: SpecAggregation) -> Seq<char> {
    match a {
        SpecAggregation::Count(_) => count_word(),
        SpecAggregation::Sum(_) => sum_word(),
        SpecAggregation::Average(_) => average_word(),
    }
}

/// The column an aggregation reads.
pub open spec fn aggregated_column(a: SpecAggregation) -> Seq<char> {
    match a {
        SpecAggregation::Count(c) => c,
        SpecAggregation::Sum(c) => c,
        SpecAggregation::Average(c) => c,
    }
}

/// The query written out: `FILTER <condition> GROUP BY <column> <AGGREGATION> <column>`,
/// the condition written by [`render_condition`].
pub open spec fn render_query(q: SpecQuery) -> Seq<char> {
    filter_prefix() + render_condition(q.filter) + group_by_marker() + q.group_by + seq![' ']
        + aggregation_word(q.aggregate) + seq![' '] + aggregated_column(q.aggregate)
}

/// The query can be written: its condition can, and its column names are plain.
pub open spec fn writable_query(q: SpecQuery) -> bool {
    &&& writable(q.filter)
    &&& plain_name(q.group_by)
    &&& plain_name(aggregated_column(q.aggregate))
}

/// Reading the characters of a word adds them to the word being read.
proof fn lemma_words_run(s: Seq<char>, i: int, w: Seq<char>, cur: Seq<char>)
    requires
        stands_at(s, i, w),
        forall|j: int| 0 <= j < w.len() ==> !is_ws(#[trigger] w[j]),
    ensures
        crate::text::words_from(s, i, cur) == crate::text::words_from(s, i + w.len(), cur + w),
    decreases w.len(),
{
    if w.len() == 0 {
        assert(cur + w =~= cur);
    } else {
        assert(s[i] == w[0]);
        assert(!is_ws(w[0]));
        let rest = w.drop_first();
        assert(stands_at(s, i + 1, rest)) by {
            assert forall|j: int| 0 <= j < rest.len() implies s[i + 1 + j] == #[trigger] rest[j] by {
                assert(s[i + (j + 1)] == w[j + 1]);
            }
        }
        assert forall|j: int| 0 <= j < rest.len() implies !is_ws(#[trigger] rest[j]) by {
            assert(!is_ws(w[j + 1]));
        }
        lemma_words_run(s, i + 1, rest, cur.push(w[0]));
        assert(cur.push(w[0]) + rest =~= cur + w);
    }
}

/// Three words with single spaces between them.
proof fn lemma_three_words(a: Seq<char>, b: Seq<char>, c: Seq<char>)
    requires
        plain_name(a),
        plain_name(b),
        plain_name(c),
    ensures
        crate::text::words(a + seq![' '] + b + seq![' '] + c) == seq![a, b, c],
{
    let s = a + seq![' '] + b + seq![' '] + c;
    let la = a.len() as int;
    let lb = b.len() as int;
    assert(is_ws(' '));
    assert forall|j: int| 0 <= j < a.len() implies !is_ws(#[trigger] a[j]) by {
        assert(name_char(a[j]));
    }
    assert forall|j: int| 0 <= j < b.len() implies !is_ws(#[trigger] b[j]) by {
        assert(name_char(b[j]));
    }
    assert forall|j: int| 0 <= j < c.len() implies !is_ws(#[trigger] c[j]) by {
        assert(name_char(c[j]));
    }
    assert(stands_at(s, 0, a)) by {
        assert forall|j: int| 0 <= j < a.len() implies s[0 + j] == #[trigger] a[j] by {}
    }
    assert(stands_at(s, la + 1, b)) by {
        assert forall|j: int| 0 <= j < b.len() implies s[la + 1 + j] == #[trigger] b[j] by {}
    }
    assert(stands_at(s, la + lb + 2, c)) by {
        assert forall|j: int| 0 <= j < c.len() implies s[la + lb + 2 + j] == #[trigger] c[j] by {}
    }
    let e = Seq::<char>::empty();
    lemma_words_run(s, 0, a, e);
    lemma_words_run(s, la + 1, b, e);
    lemma_words_run(s, la + lb + 2, c, e);
    assert(e + a =~= a);
    assert(e + b =~= b);
    assert(e + c =~= c);
    assert(s[la] == ' ');
    assert(s[la + lb + 1] == ' ');
    assert(crate::text::words_from(s, la + lb + 2 + c.len(), c) == seq![c]);
    assert(crate::text::words_from(s, la + lb + 1, b) == seq![b] + seq![c]);
    assert(crate::text::words_from(s, la, a) == seq![a] + (seq![b] + seq![c]));
    assert(seq![a] + (seq![b] + seq![c]) =~= seq![a, b, c]);
}


/// The characters of an occurrence.
proof fn lemma_occurrence_char(s: Seq<char>, p: Seq<char>, j: int, t: int)
    requires
        occurs_at(s, p, j),
        0 <= t < p.len(),
    ensures
        s[j + t] == p[t],
{
    assert(s.subrange(j, j + p.len())[t] == s[j + t]);
}

/// No ` GROUP BY ` starts before the one after the condition.
proof fn lemma_no_early_marker(input: Seq<char>, r: Seq<char>, j: int)
    requires
        r.len() >= 2,
        marker_free(r),
        starts_well(r),
        r[r.len() - 1] != 'P' && r[r.len() - 1] != 'Y',
        input.len() >= 7 + r.len() + 10,
        forall|t: int| 0 <= t < 7 ==> input[t] == #[trigger] filter_prefix()[t],
        forall|t: int| 0 <= t < r.len() ==> input[7 + t] == #[trigger] r[t],
        forall|t: int| 0 <= t < 10 ==> input[7 + r.len() + t] == #[trigger] group_by_marker()[t],
        0 <= j < 7 + r.len(),
    ensures
        !occurs_at(input, group_by_marker(), j),
{
    let m = group_by_marker();
    let g = 7 + r.len() as int;
    if occurs_at(input, m, j) {
        lemma_occurrence_char(input, m, j, 0);
        if j < 6 {
            assert(input[j] == filter_prefix()[j]);
        } else if j + 10 <= g {
            if j == 6 {
                assert forall|x: int| 0 <= x < 9 implies r.subrange(0, 9)[x] == m.subrange(1, 10)[x] by {
                    lemma_occurrence_char(input, m, j, x + 1);
                    assert(input[7 + x] == r[x]);
                }
                assert(r.subrange(0, 9) =~= m.subrange(1, 10));
            } else {
                assert(stands_at(input, 7, r)) by {
                    assert forall|x: int| 0 <= x < r.len() implies input[7 + x] == #[trigger] r[x] by {}
                }
                lemma_occurs_shift(input, 7, r, m, j);
            }
        } else {
            // the occurrence runs into the real ` GROUP BY `: its space must
            // fall where the pattern has a space, after `P` or `Y`
            let t = g - j;
            lemma_occurrence_char(input, m, j, t);
            lemma_occurrence_char(input, m, j, t - 1);
            assert(input[g + 0] == m[0]);
            assert(input[7 + (r.len() - 1)] == r[r.len() - 1]);
        }
    }
}

/// The first ` GROUP BY ` of a written query is the one after its condition.
proof fn lemma_marker_found(r: Seq<char>, tail: Seq<char>)
    requires
        r.len() >= 2,
        marker_free(r),
        starts_well(r),
        r[r.len() - 1] != 'P' && r[r.len() - 1] != 'Y',
    ensures
        find(filter_prefix() + r + group_by_marker() + tail, group_by_marker()) == Some(
            7 + r.len() as int,
        ),
{
    let m = group_by_marker();
    let input = filter_prefix() + r + m + tail;
    let g = 7 + r.len() as int;
    assert forall|t: int| 0 <= t < 7 implies input[t] == #[trigger] filter_prefix()[t] by {}
    assert forall|t: int| 0 <= t < r.len() implies input[7 + t] == #[trigger] r[t] by {}
    assert forall|t: int| 0 <= t < 10 implies input[7 + r.len() + t] == #[trigger] m[t] by {}
    assert(input.subrange(g, g + 10) =~= m);
    assert forall|j: int| 0 <= j < g implies !#[trigger] occurs_at(input, m, j) by {
        lemma_no_early_marker(input, r, j);
    }
    lemma_find_first(input, m, 0, g);
}

/// A query written out reads back as the same query.
pub proof fn query_round_trip(q: SpecQuery)
    requires
        writable_query(q),
    ensures
        parse_query(render_query(q)) == Some(q),
{
    let r = render_condition(q.filter);
    let k = aggregation_word(q.aggregate);
    let col = aggregated_column(q.aggregate);
    let tail = q.group_by + seq![' '] + k + seq![' '] + col;
    let input = render_query(q);
    lemma_condition_round_trip(q.filter);
    assert(input =~= filter_prefix() + r + group_by_marker() + tail);
    lemma_marker_found(r, tail);
    // the input is already trimmed
    assert(name_char(col[col.len() - 1]));
    assert(input[input.len() - 1] == col[col.len() - 1]);
    assert(input[0] == 'F');
    lemma_trim_noop(input);
    let g = 7 + r.len() as int;
    let filter_part = input.subrange(0, g);
    assert(filter_part.subrange(0, 7) =~= filter_prefix());
    assert(filter_part.subrange(7, filter_part.len() as int) =~= r);
    assert(input.subrange(g + 10, input.len() as int) =~= tail);
    assert(plain_name(k)) by {
        assert forall|j: int| 0 <= j < k.len() implies name_char(#[trigger] k[j]) by {}
    }
    lemma_three_words(q.group_by, k, col);
    assert(crate::text::words(tail) == seq![q.group_by, k, col]);
}

} // verus!
