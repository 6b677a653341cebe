use vstd::prelude::*;

use crate::text::chars_of;

verus! {

/// A typed value of a key. A floating-point value keeps the text it was
/// written with, which always reads as a 32-bit float.
#[derive(Debug, Clone, PartialEq)]
pub enum IniValue {
    String(String),
    Integer(i32),
    Float(String),
    Bool(bool),
}

/// What a value is, in mathematical terms.
pub enum IniValueView {
    String(Seq<char>),
    Integer(i32),
    Float(Seq<char>),
    Bool(bool),
}

impl View for IniValue {
    type V = IniValueView;

    open spec fn view(&self) -> IniValueView {
        match self {
            IniValue::String(s) => IniValueView::String(s@),
            IniValue::Integer(i) => IniValueView::Integer(*i),
            IniValue::Float(s) => IniValueView::Float(s@),
            IniValue::Bool(b) => IniValueView::Bool(*b),
        }
    }
}

pub open spec fn is_digit(c: char) -> bool {
    '0' <= c <= '9'
}

pub open spec fn digit_value(c: char) -> int {
    c as int - '0' as int
}

pub open spec fn all_digits(s: Seq<char>) -> bool {
    forall|i: int| 0 <= i < s.len() ==> is_digit(#[trigger] s[i])
}

/// The number that a string of decimal digits denotes.
pub open spec fn digits_value(s: Seq<char>) -> int
    decreases s.len(),
{
    if s.len() == 0 {
        0
    } else {
        10 * digits_value(s.drop_last()) + digit_value(s.last())
    }
}

pub open spec fn is_sign(c: char) -> bool {
    c == '+' || c == '-'
}

/// The text without its leading sign, if it has one.
pub open spec fn unsigned_part(s: Seq<char>) -> Seq<char> {
    if s.len() > 0 && is_sign(s[0]) {
        s.drop_first()
    } else {
        s
    }
}

/// An optional sign followed by one or more decimal digits.
pub open spec fn is_integer_text(s: Seq<char>) -> bool {
    unsigned_part(s).len() > 0 && all_digits(unsigned_part(s))
}

pub open spec fn integer_text_value(s: Seq<char>) -> int {
    if s.len() > 0 && s[0] == '-' {
        -digits_value(unsigned_part(s))
    } else {
        digits_value(unsigned_part(s))
    }
}

/// The text of a base-10 integer that fits in an `i32`: the texts that
/// `str::parse::<i32>` accepts.
pub open spec fn is_i32_text(s: Seq<char>) -> bool {
    is_integer_text(s) && i32::MIN <= integer_text_value(s) <= i32::MAX
}

/// `c` is the lower-case ASCII letter `l`, in either case.
pub open spec fn ascii_ci_eq(c: char, l: char) -> bool {
    c == l || ('a' <= l <= 'z' && c as int + 32 == l as int)
}

pub open spec fn matches_ci(s: Seq<char>, word: Seq<char>) -> bool {
    s.len() == word.len() && forall|i: int| 0 <= i < s.len() ==> ascii_ci_eq(s[i], word[i])
}

pub open spec fn is_special_float(s: Seq<char>) -> bool {
    matches_ci(s, seq!['i', 'n', 'f']) || matches_ci(
        s,
        seq!['i', 'n', 'f', 'i', 'n', 'i', 't', 'y'],
    ) || matches_ci(s, seq!['n', 'a', 'n'])
}

/// Digits with at most one decimal point, and at least one digit.
pub open spec fn is_mantissa(s: Seq<char>) -> bool {
    (s.len() > 0 && all_digits(s)) || exists|p: int|
        0 <= p < s.len() && s.len() >= 2 && #[trigger] s[p] == '.' && all_digits(s.take(p))
            && all_digits(s.skip(p + 1))
}

pub open spec fn is_exp_mark(c: char) -> bool {
    c == 'e' || c == 'E'
}

/// A mantissa, optionally followed by an exponent mark and an integer.
pub open spec fn is_number(s: Seq<char>) -> bool {
    is_mantissa(s) || exists|k: int|
        0 <= k < s.len() && is_exp_mark(#[trigger] s[k]) && is_mantissa(s.take(k))
            && is_integer_text(s.skip(k + 1))
}

/// The texts that `str::parse::<f32>` accepts: an optional sign, then
/// `inf`, `infinity` or `nan` in any case, or a decimal number.
pub open spec fn is_float_text(s: Seq<char>) -> bool {
    is_special_float(unsigned_part(s)) || is_number(unsigned_part(s))
}

pub open spec fn true_text() -> Seq<char> {
    seq!['t', 'r', 'u', 'e']
}

pub open spec fn false_text() -> Seq<char> {
    seq!['f', 'a', 'l', 's', 'e']
}

/// The typed value of a value text: an integer, else a float, else a
/// boolean, else the text itself.
pub open spec fn infer(s: Seq<char>) -> IniValueView {
    if is_i32_text(s) {
        IniValueView::Integer(integer_text_value(s) as i32)
    } else if is_float_text(s) {
        IniValueView::Float(s)
    } else if s == true_text() {
        IniValueView::Bool(true)
    } else if s == false_text() {
        IniValueView::Bool(false)
    } else {
        IniValueView::String(s)
    }
}

proof fn lemma_digits_prefix(s: Seq<char>, k: int)
    requires
        all_digits(s),
        0 <= k <= s.len(),
    ensures
        0 <= digits_value(s.take(k)) <= digits_value(s),
    decreases s.len(),
{
    if s.len() > 0 {
        let d = s.drop_last();
        assert(is_digit(s[s.len() - 1]));
        if k == s.len() {
            assert(s.take(k) =~= s);
            lemma_digits_prefix(d, 0);
        } else {
            lemma_digits_prefix(d, k);
            assert(d.take(k) =~= s.take(k));
        }
    } else {
        assert(s.take(k) =~= s);
    }
}

/// Whether `s[lo..hi]` is all decimal digits.
fn all_digits_in(s: &Vec<char>, lo: usize, hi: usize) -> (r: bool)
    requires
        lo <= hi <= s.len(),
    ensures
        r == all_digits(s@.subrange(lo as int, hi as int)),
{
    let mut i: usize = lo;
    while i < hi
        invariant
            lo <= i <= hi <= s.len(),
            all_digits(s@.subrange(lo as int, i as int)),
        decreases hi - i,
    {
        if !(s[i] >= '0' && s[i] <= '9') {
            assert(s@.subrange(lo as int, hi as int)[i - lo] == s@[i as int]);
            return false;
        }
        assert forall|j: int| 0 <= j < i + 1 - lo implies is_digit(
            #[trigger] s@.subrange(lo as int, i + 1)[j],
        ) by {
            if j < i - lo {
                assert(s@.subrange(lo as int, i + 1)[j] == s@.subrange(lo as int, i as int)[j]);
            }
        }
        i = i + 1;
    }
    true
}

/// The `i32` that `s[lo..hi]` denotes, if it is the text of one.
fn integer_in(s: &Vec<char>, lo: usize, hi: usize) -> (r: Option<i32>)
    requires
        lo <= hi <= s.len(),
    ensures
        ({
            let t = s@.subrange(lo as int, hi as int);
            match r {
                Some(v) => is_i32_text(t) && v == integer_text_value(t),
                None => !is_i32_text(t),
            }
        }),
{
    let ghost t = s@.subrange(lo as int, hi as int);
    let mut i: usize = lo;
    let mut neg = false;
    if lo < hi && (s[lo] == '+' || s[lo] == '-') {
        neg = s[lo] == '-';
        i = lo + 1;
    }
    let start = i;
    let ghost u = s@.subrange(start as int, hi as int);
    assert(unsigned_part(t) =~= u);
    if start == hi {
        return None;
    }
    let mut acc: u64 = 0;
    while i < hi
        invariant
            lo <= start <= i <= hi <= s.len(),
            u == s@.subrange(start as int, hi as int),
            t == s@.subrange(lo as int, hi as int),
            unsigned_part(t) == u,
            neg == (t.len() > 0 && t[0] == '-'),
            all_digits(s@.subrange(start as int, i as int)),
            acc == digits_value(s@.subrange(start as int, i as int)),
            acc <= 2147483648,
        decreases hi - i,
    {
        let c = s[i];
        assert(u[i - start] == c);
        if !(c >= '0' && c <= '9') {
            assert(!is_digit(u[i - start]));
            return None;
        }
        let ghost prev = s@.subrange(start as int, i as int);
        let ghost next = s@.subrange(start as int, i + 1);
        assert(next.drop_last() =~= prev);
        let d = (c as u32 - '0' as u32) as u64;
        let val = acc * 10 + d;
        assert(val == digits_value(next));
        assert(all_digits(next)) by {
            assert forall|j: int| 0 <= j < next.len() implies is_digit(#[trigger] next[j]) by {
                if j < prev.len() {
                    assert(next[j] == prev[j]);
                }
            }
        }
        if val > 2147483648 {
            proof {
                if all_digits(u) {
                    lemma_digits_prefix(u, i + 1 - start);
                    assert(u.take(i + 1 - start) =~= next);
                }
            }
            return None;
        }
        acc = val;
        i = i + 1;
    }
    assert(s@.subrange(start as int, i as int) =~= u);
    if neg {
        Some((0 - acc as i64) as i32)
    } else if acc <= 2147483647 {
        Some(acc as i32)
    } else {
        None
    }
}

/// Whether `s[lo..hi]` is an optional sign and one or more digits.
fn integer_text_in(s: &Vec<char>, lo: usize, hi: usize) -> (r: bool)
    requires
        lo <= hi <= s.len(),
    ensures
        r == is_integer_text(s@.subrange(lo as int, hi as int)),
{
    let ghost t = s@.subrange(lo as int, hi as int);
    let mut start = lo;
    if lo < hi && (s[lo] == '+' || s[lo] == '-') {
        start = lo + 1;
    }
    assert(unsigned_part(t) =~= s@.subrange(start as int, hi as int));
    start < hi && all_digits_in(s, start, hi)
}

/// Whether `s[lo..hi]` is a mantissa.
fn mantissa_in(s: &Vec<char>, lo: usize, hi: usize) -> (r: bool)
    requires
        lo <= hi <= s.len(),
    ensures
        r == is_mantissa(s@.subrange(lo as int, hi as int)),
{
    let ghost t = s@.subrange(lo as int, hi as int);
    let mut p = lo;
    while p < hi && s[p] != '.'
        invariant
            lo <= p <= hi <= s.len(),
            forall|j: int| lo <= j < p ==> s@[j] != '.',
        decreases hi - p,
    {
        p = p + 1;
    }
    if p == hi {
        let r = lo < hi && all_digits_in(s, lo, hi);
        assert(!exists|q: int|
            0 <= q < t.len() && t.len() >= 2 && #[trigger] t[q] == '.' && all_digits(t.take(q))
                && all_digits(t.skip(q + 1))) by {
            assert forall|q: int| 0 <= q < t.len() implies #[trigger] t[q] != '.' by {
                assert(t[q] == s@[lo + q]);
            }
        }
        r
    } else {
        let ghost pp = p - lo;
        assert(t[pp] == '.');
        assert(!all_digits(t));
        let r = hi - lo >= 2 && all_digits_in(s, lo, p) && all_digits_in(s, p + 1, hi);
        assert(t.take(pp) =~= s@.subrange(lo as int, p as int));
        assert(t.skip(pp + 1) =~= s@.subrange(p + 1, hi as int));
        if !r {
            assert forall|q: int|
                0 <= q < t.len() && t.len() >= 2 && #[trigger] t[q] == '.' implies !(all_digits(
                t.take(q),
            ) && all_digits(t.skip(q + 1))) by {
                if q < pp {
                    assert(t[q] == s@[lo + q]);
                } else if q > pp {
                    assert(t.take(q)[pp] == '.');
                }
            }
        }
        r
    }
}

/// Whether `s[lo..hi]` is a number: a mantissa and an optional exponent.
fn number_in(s: &Vec<char>, lo: usize, hi: usize) -> (r: bool)
    requires
        lo <= hi <= s.len(),
    ensures
        r == is_number(s@.subrange(lo as int, hi as int)),
{
    let ghost t = s@.subrange(lo as int, hi as int);
    let mut k = lo;
    while k < hi && s[k] != 'e' && s[k] != 'E'
        invariant
            lo <= k <= hi <= s.len(),
            forall|j: int| lo <= j < k ==> !is_exp_mark(#[trigger] s@[j]),
        decreases hi - k,
    {
        k = k + 1;
    }
    if k == hi {
        let r = mantissa_in(s, lo, hi);
        assert forall|q: int| 0 <= q < t.len() implies !is_exp_mark(#[trigger] t[q]) by {
            assert(t[q] == s@[lo + q]);
        }
        r
    } else {
        let ghost kk = k - lo;
        assert(t[kk] == s@[k as int]);
        assert(!is_mantissa(t)) by {
            assert(!is_digit(t[kk]) && t[kk] != '.');
            assert(!all_digits(t));
            assert forall|q: int|
                0 <= q < t.len() && #[trigger] t[q] == '.' implies !(all_digits(t.take(q))
                && all_digits(t.skip(q + 1))) by {
                if q < kk {
                    assert(t.skip(q + 1)[kk - q - 1] == t[kk]);
                } else {
                    assert(t.take(q)[kk] == t[kk]);
                }
            }
        }
        let r = mantissa_in(s, lo, k) && integer_text_in(s, k + 1, hi);
        assert(t.take(kk) =~= s@.subrange(lo as int, k as int));
        assert(t.skip(kk + 1) =~= s@.subrange(k + 1, hi as int));
        if !r {
            assert forall|q: int|
                0 <= q < t.len() && is_exp_mark(#[trigger] t[q]) implies !(is_mantissa(t.take(q))
                && is_integer_text(t.skip(q + 1))) by {
                if q < kk {
                    assert(t[q] == s@[lo + q]);
                } else if q > kk {
                    let m = t.take(q);
                    assert(m[kk] == t[kk]);
                    assert(!all_digits(m));
                    assert forall|x: int|
                        0 <= x < m.len() && #[trigger] m[x] == '.' implies !(all_digits(m.take(x))
                        && all_digits(m.skip(x + 1))) by {
                        if x < kk {
                            assert(m.skip(x + 1)[kk - x - 1] == m[kk]);
                        } else {
                            assert(m.take(x)[kk] == m[kk]);
                        }
                    }
                }
            }
        }
        r
    }
}

/// Whether `c` is the lower-case ASCII letter `l`, in either case.
fn ascii_ci_eq_exec(c: char, l: char) -> (r: bool)
    ensures
        r == ascii_ci_eq(c, l),
{
    c == l || (l >= 'a' && l <= 'z' && (c as u32) + 32 == l as u32)
}

/// Whether `s[lo..hi]` is `word`, ignoring ASCII case.
fn matches_ci_in(s: &Vec<char>, lo: usize, hi: usize, word: &Vec<char>) -> (r: bool)
    requires
        lo <= hi <= s.len(),
    ensures
        r == matches_ci(s@.subrange(lo as int, hi as int), word@),
{
    if hi - lo != word.len() {
        return false;
    }
    let mut i: usize = 0;
    while i < word.len()
        invariant
            lo <= hi <= s.len(),
            hi - lo == word.len(),
            i <= word.len(),
            forall|j: int| 0 <= j < i ==> ascii_ci_eq(s@[lo + j], word@[j]),
        decreases word.len() - i,
    {
        if !ascii_ci_eq_exec(s[lo + i], word[i]) {
            assert(s@.subrange(lo as int, hi as int)[i as int] == s@[lo + i]);
            return false;
        }
        i = i + 1;
    }
    assert forall|j: int| 0 <= j < hi - lo implies ascii_ci_eq(
        s@.subrange(lo as int, hi as int)[j],
        word@[j],
    ) by {
        assert(s@.subrange(lo as int, hi as int)[j] == s@[lo + j]);
    }
    true
}

/// Whether `s` reads as a 32-bit float.
fn float_text(s: &Vec<char>) -> (r: bool)
    ensures
        r == is_float_text(s@),
{
    let n = s.len();
    let mut start: usize = 0;
    if n > 0 && (s[0] == '+' || s[0] == '-') {
        start = 1;
    }
    assert(unsigned_part(s@) =~= s@.subrange(start as int, n as int));
    let inf = vec!['i', 'n', 'f'];
    let infinity = vec!['i', 'n', 'f', 'i', 'n', 'i', 't', 'y'];
    let nan = vec!['n', 'a', 'n'];
    assert(inf@ =~= seq!['i', 'n', 'f']);
    assert(infinity@ =~= seq!['i', 'n', 'f', 'i', 'n', 'i', 't', 'y']);
    assert(nan@ =~= seq!['n', 'a', 'n']);
    matches_ci_in(s, start, n, &inf) || matches_ci_in(s, start, n, &infinity) || matches_ci_in(
        s,
        start,
        n,
        &nan,
    ) || number_in(s, start, n)
}

/// Whether `s` is exactly `word`.
fn equals_word(s: &Vec<char>, word: &Vec<char>) -> (r: bool)
    ensures
        r == (s@ == word@),
{
    if s.len() != word.len() {
        return false;
    }
    let mut i: usize = 0;
    while i < s.len()
        invariant
            s.len() == word.len(),
            i <= s.len(),
            forall|j: int| 0 <= j < i ==> s@[j] == word@[j],
        decreases s.len() - i,
    {
        if s[i] != word[i] {
            return false;
        }
        i = i + 1;
    }
    assert(s@ =~= word@);
    true
}

/// The typed value of a value text: an `i32` if the text is the base-10
/// text of one, else a float if it reads as a 32-bit float, else a boolean
/// if it is `true` or `false`, else the text itself.
pub fn infer_value(text: &str) -> (r: IniValue)
    ensures
        r@ == infer(text@),
{
    let s = chars_of(text);
    let n = s.len();
    match integer_in(&s, 0, n) {
        Some(v) => {
            assert(s@.subrange(0, n as int) =~= s@);
            return IniValue::Integer(v);
        },
        None => {},
    }
    assert(s@.subrange(0, n as int) =~= s@);
    if float_text(&s) {
        return IniValue::Float(text.to_owned());
    }
    let t = vec!['t', 'r', 'u', 'e'];
    let f = vec!['f', 'a', 'l', 's', 'e'];
    assert(t@ =~= true_text());
    assert(f@ =~= false_text());
    if equals_word(&s, &t) {
        IniValue::Bool(true)
    } else if equals_word(&s, &f) {
        IniValue::Bool(false)
    } else {
        IniValue::String(text.to_owned())
    }
}

/// A value text that is the base-10 text of an `i32` is typed as that
/// integer, never as a float or a string.
pub proof fn integer_text_types_as_integer(s: Seq<char>)
    requires
        is_i32_text(s),
    ensures
        infer(s) == IniValueView::Integer(integer_text_value(s) as i32),
        !(infer(s) is Float),
        !(infer(s) is String),
{
}

} // verus!
